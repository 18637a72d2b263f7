//! The names conditions are registered under.
use crate::condition::dynamic::{
    with_all_conditions, BlockingToken, DynamicConditionFactory, OrderRateBand, OrderToken,
    ProximityToken,
};
use vstd::prelude::*;

verus! {

/// The name a token is registered under; none for the tokens that are built
/// without one.
pub open spec fn registered_name(token: DynamicConditionFactory) -> Option<Seq<char>> {
    match token {
        DynamicConditionFactory::Order(t) => match t {
            OrderToken::Order => Some("order"@),
            OrderToken::OrderRate => Some("order_rate"@),
            OrderToken::OrderRateInContinue(OrderRateBand::Top20) => Some("order_rate_in20_continue"@),
            OrderToken::OrderRateInContinue(OrderRateBand::Top40) => Some("order_rate_in40_continue"@),
            OrderToken::OrderRateInContinue(OrderRateBand::Top50) => Some("order_rate_in50_continue"@),
            OrderToken::OrderRateInContinue(OrderRateBand::Top80) => Some("order_rate_in80_continue"@),
            OrderToken::OrderRateOutContinue(OrderRateBand::Top20) => Some("order_rate_out20_continue"@),
            OrderToken::OrderRateOutContinue(OrderRateBand::Top40) => Some("order_rate_out40_continue"@),
            OrderToken::OrderRateOutContinue(OrderRateBand::Top50) => Some("order_rate_out50_continue"@),
            OrderToken::OrderRateOutContinue(OrderRateBand::Top70) => Some("order_rate_out70_continue"@),
            OrderToken::ChangeOrderOnetime => Some("change_order_onetime"@),
            OrderToken::ChangeOrderUpEndAfter => Some("change_order_up_end_after"@),
            OrderToken::ChangeOrderUpFinalcornerAfter => Some("change_order_up_finalcorner_after"@),
            OrderToken::ChangeOrderUpMiddle => Some("change_order_up_middle"@),
            OrderToken::DistanceDiffTop => Some("distance_diff_top"@),
            OrderToken::DistanceDiffTopFloat => Some("distance_diff_top_float"@),
            OrderToken::DistanceDiffRate => Some("distance_diff_rate"@),
            OrderToken::IsBehindIn => Some("is_behind_in"@),
            _ => None,
        },
        DynamicConditionFactory::Proximity(t) => match t {
            ProximityToken::NearCount => Some("near_count"@),
            ProximityToken::NearInfrontCount => Some("near_infront_count"@),
            ProximityToken::IsSurrounded => Some("is_surrounded"@),
            ProximityToken::BashinDiffBehind => Some("bashin_diff_behind"@),
            ProximityToken::BashinDiffInfront => Some("bashin_diff_infront"@),
            ProximityToken::BehindNearLaneTime => Some("behind_near_lane_time"@),
            ProximityToken::BehindNearLaneTimeSet1 => Some("behind_near_lane_time_set1"@),
            ProximityToken::InfrontNearLaneTime => Some("infront_near_lane_time"@),
            ProximityToken::Visiblehorse => Some("visiblehorse"@),
        },
        DynamicConditionFactory::Blocking(t) => match t {
            BlockingToken::BlockedFront => Some("blocked_front"@),
            BlockingToken::BlockedFrontContinuetime => Some("blocked_front_continuetime"@),
            BlockingToken::BlockedAllContinuetime => Some("blocked_all_continuetime"@),
            BlockingToken::BlockedSide => Some("blocked_side"@),
            BlockingToken::BlockedSideContinuetime => Some("blocked_side_continuetime"@),
            BlockingToken::IsOvertake => Some("is_overtake"@),
            BlockingToken::IsMoveLane => Some("is_move_lane"@),
            BlockingToken::OvertakeTargetTime => Some("overtake_target_time"@),
            BlockingToken::OvertakeTargetNoOrderUpTime => Some("overtake_target_no_order_up_time"@),
        },
        DynamicConditionFactory::Own(_) => None,
    }
}

proof fn lemma_names_are_spelled_out()
    ensures
        "order"@.len() == 5,
        "order_rate"@.len() == 10,
        "order_rate_in20_continue"@.len() == 24,
        "order_rate_in40_continue"@.len() == 24,
        "order_rate_in50_continue"@.len() == 24,
        "order_rate_in80_continue"@.len() == 24,
        "order_rate_out20_continue"@.len() == 25,
        "order_rate_out40_continue"@.len() == 25,
        "order_rate_out50_continue"@.len() == 25,
        "order_rate_out70_continue"@.len() == 25,
        "change_order_onetime"@.len() == 20,
        "change_order_up_end_after"@.len() == 25,
        "change_order_up_finalcorner_after"@.len() == 33,
        "change_order_up_middle"@.len() == 22,
        "distance_diff_top"@.len() == 17,
        "distance_diff_top_float"@.len() == 23,
        "distance_diff_rate"@.len() == 18,
        "is_behind_in"@.len() == 12,
        "near_count"@.len() == 10,
        "near_infront_count"@.len() == 18,
        "is_surrounded"@.len() == 13,
        "bashin_diff_behind"@.len() == 18,
        "bashin_diff_infront"@.len() == 19,
        "behind_near_lane_time"@.len() == 21,
        "behind_near_lane_time_set1"@.len() == 26,
        "infront_near_lane_time"@.len() == 22,
        "visiblehorse"@.len() == 12,
        "blocked_front"@.len() == 13,
        "blocked_front_continuetime"@.len() == 26,
        "blocked_all_continuetime"@.len() == 24,
        "blocked_side"@.len() == 12,
        "blocked_side_continuetime"@.len() == 25,
        "is_overtake"@.len() == 11,
        "is_move_lane"@.len() == 12,
        "overtake_target_time"@.len() == 20,
        "overtake_target_no_order_up_time"@.len() == 32,
{
    reveal_strlit("order");
    reveal_strlit("order_rate");
    reveal_strlit("order_rate_in20_continue");
    reveal_strlit("order_rate_in40_continue");
    reveal_strlit("order_rate_in50_continue");
    reveal_strlit("order_rate_in80_continue");
    reveal_strlit("order_rate_out20_continue");
    reveal_strlit("order_rate_out40_continue");
    reveal_strlit("order_rate_out50_continue");
    reveal_strlit("order_rate_out70_continue");
    reveal_strlit("change_order_onetime");
    reveal_strlit("change_order_up_end_after");
    reveal_strlit("change_order_up_finalcorner_after");
    reveal_strlit("change_order_up_middle");
    reveal_strlit("distance_diff_top");
    reveal_strlit("distance_diff_top_float");
    reveal_strlit("distance_diff_rate");
    reveal_strlit("is_behind_in");
    reveal_strlit("near_count");
    reveal_strlit("near_infront_count");
    reveal_strlit("is_surrounded");
    reveal_strlit("bashin_diff_behind");
    reveal_strlit("bashin_diff_infront");
    reveal_strlit("behind_near_lane_time");
    reveal_strlit("behind_near_lane_time_set1");
    reveal_strlit("infront_near_lane_time");
    reveal_strlit("visiblehorse");
    reveal_strlit("blocked_front");
    reveal_strlit("blocked_front_continuetime");
    reveal_strlit("blocked_all_continuetime");
    reveal_strlit("blocked_side");
    reveal_strlit("blocked_side_continuetime");
    reveal_strlit("is_overtake");
    reveal_strlit("is_move_lane");
    reveal_strlit("overtake_target_time");
    reveal_strlit("overtake_target_no_order_up_time");
}

proof fn lemma_names_of_one_length_differ()
    ensures
        "order_rate"@ != "near_count"@,
        "order_rate_in20_continue"@ != "order_rate_in40_continue"@,
        "order_rate_in20_continue"@ != "order_rate_in50_continue"@,
        "order_rate_in20_continue"@ != "order_rate_in80_continue"@,
        "order_rate_in20_continue"@ != "blocked_all_continuetime"@,
        "order_rate_in40_continue"@ != "order_rate_in50_continue"@,
        "order_rate_in40_continue"@ != "order_rate_in80_continue"@,
        "order_rate_in40_continue"@ != "blocked_all_continuetime"@,
        "order_rate_in50_continue"@ != "order_rate_in80_continue"@,
        "order_rate_in50_continue"@ != "blocked_all_continuetime"@,
        "order_rate_in80_continue"@ != "blocked_all_continuetime"@,
        "order_rate_out20_continue"@ != "order_rate_out40_continue"@,
        "order_rate_out20_continue"@ != "order_rate_out50_continue"@,
        "order_rate_out20_continue"@ != "order_rate_out70_continue"@,
        "order_rate_out20_continue"@ != "change_order_up_end_after"@,
        "order_rate_out20_continue"@ != "blocked_side_continuetime"@,
        "order_rate_out40_continue"@ != "order_rate_out50_continue"@,
        "order_rate_out40_continue"@ != "order_rate_out70_continue"@,
        "order_rate_out40_continue"@ != "change_order_up_end_after"@,
        "order_rate_out40_continue"@ != "blocked_side_continuetime"@,
        "order_rate_out50_continue"@ != "order_rate_out70_continue"@,
        "order_rate_out50_continue"@ != "change_order_up_end_after"@,
        "order_rate_out50_continue"@ != "blocked_side_continuetime"@,
        "order_rate_out70_continue"@ != "change_order_up_end_after"@,
        "order_rate_out70_continue"@ != "blocked_side_continuetime"@,
        "change_order_onetime"@ != "overtake_target_time"@,
        "change_order_up_end_after"@ != "blocked_side_continuetime"@,
        "change_order_up_middle"@ != "infront_near_lane_time"@,
        "distance_diff_rate"@ != "near_infront_count"@,
        "distance_diff_rate"@ != "bashin_diff_behind"@,
        "is_behind_in"@ != "visiblehorse"@,
        "is_behind_in"@ != "blocked_side"@,
        "is_behind_in"@ != "is_move_lane"@,
        "near_infront_count"@ != "bashin_diff_behind"@,
        "is_surrounded"@ != "blocked_front"@,
        "behind_near_lane_time_set1"@ != "blocked_front_continuetime"@,
        "visiblehorse"@ != "blocked_side"@,
        "visiblehorse"@ != "is_move_lane"@,
        "blocked_side"@ != "is_move_lane"@,
{
    reveal_strlit("order_rate");
    reveal_strlit("near_count");
    reveal_strlit("order_rate_in20_continue");
    reveal_strlit("order_rate_in40_continue");
    reveal_strlit("order_rate_in50_continue");
    reveal_strlit("order_rate_in80_continue");
    reveal_strlit("blocked_all_continuetime");
    reveal_strlit("order_rate_out20_continue");
    reveal_strlit("order_rate_out40_continue");
    reveal_strlit("order_rate_out50_continue");
    reveal_strlit("order_rate_out70_continue");
    reveal_strlit("change_order_up_end_after");
    reveal_strlit("blocked_side_continuetime");
    reveal_strlit("change_order_onetime");
    reveal_strlit("overtake_target_time");
    reveal_strlit("change_order_up_middle");
    reveal_strlit("infront_near_lane_time");
    reveal_strlit("distance_diff_rate");
    reveal_strlit("near_infront_count");
    reveal_strlit("bashin_diff_behind");
    reveal_strlit("is_behind_in");
    reveal_strlit("visiblehorse");
    reveal_strlit("blocked_side");
    reveal_strlit("is_move_lane");
    reveal_strlit("is_surrounded");
    reveal_strlit("blocked_front");
    reveal_strlit("behind_near_lane_time_set1");
    reveal_strlit("blocked_front_continuetime");
    assert("order_rate"@[0] != "near_count"@[0]);
    assert("order_rate_in20_continue"@[13] != "order_rate_in40_continue"@[13]);
    assert("order_rate_in20_continue"@[13] != "order_rate_in50_continue"@[13]);
    assert("order_rate_in20_continue"@[13] != "order_rate_in80_continue"@[13]);
    assert("order_rate_in20_continue"@[0] != "blocked_all_continuetime"@[0]);
    assert("order_rate_in40_continue"@[13] != "order_rate_in50_continue"@[13]);
    assert("order_rate_in40_continue"@[13] != "order_rate_in80_continue"@[13]);
    assert("order_rate_in40_continue"@[0] != "blocked_all_continuetime"@[0]);
    assert("order_rate_in50_continue"@[13] != "order_rate_in80_continue"@[13]);
    assert("order_rate_in50_continue"@[0] != "blocked_all_continuetime"@[0]);
    assert("order_rate_in80_continue"@[0] != "blocked_all_continuetime"@[0]);
    assert("order_rate_out20_continue"@[14] != "order_rate_out40_continue"@[14]);
    assert("order_rate_out20_continue"@[14] != "order_rate_out50_continue"@[14]);
    assert("order_rate_out20_continue"@[14] != "order_rate_out70_continue"@[14]);
    assert("order_rate_out20_continue"@[0] != "change_order_up_end_after"@[0]);
    assert("order_rate_out20_continue"@[0] != "blocked_side_continuetime"@[0]);
    assert("order_rate_out40_continue"@[14] != "order_rate_out50_continue"@[14]);
    assert("order_rate_out40_continue"@[14] != "order_rate_out70_continue"@[14]);
    assert("order_rate_out40_continue"@[0] != "change_order_up_end_after"@[0]);
    assert("order_rate_out40_continue"@[0] != "blocked_side_continuetime"@[0]);
    assert("order_rate_out50_continue"@[14] != "order_rate_out70_continue"@[14]);
    assert("order_rate_out50_continue"@[0] != "change_order_up_end_after"@[0]);
    assert("order_rate_out50_continue"@[0] != "blocked_side_continuetime"@[0]);
    assert("order_rate_out70_continue"@[0] != "change_order_up_end_after"@[0]);
    assert("order_rate_out70_continue"@[0] != "blocked_side_continuetime"@[0]);
    assert("change_order_onetime"@[0] != "overtake_target_time"@[0]);
    assert("change_order_up_end_after"@[0] != "blocked_side_continuetime"@[0]);
    assert("change_order_up_middle"@[0] != "infront_near_lane_time"@[0]);
    assert("distance_diff_rate"@[0] != "near_infront_count"@[0]);
    assert("distance_diff_rate"@[0] != "bashin_diff_behind"@[0]);
    assert("is_behind_in"@[0] != "visiblehorse"@[0]);
    assert("is_behind_in"@[0] != "blocked_side"@[0]);
    assert("is_behind_in"@[3] != "is_move_lane"@[3]);
    assert("near_infront_count"@[0] != "bashin_diff_behind"@[0]);
    assert("is_surrounded"@[0] != "blocked_front"@[0]);
    assert("behind_near_lane_time_set1"@[1] != "blocked_front_continuetime"@[1]);
    assert("visiblehorse"@[0] != "blocked_side"@[0]);
    assert("visiblehorse"@[0] != "is_move_lane"@[0]);
    assert("blocked_side"@[0] != "is_move_lane"@[0]);
}

/// Every name stands for its own token: looking up the name a token is
/// registered under finds that token.
pub proof fn every_name_finds_its_own_token(
    registry: Map<Seq<char>, DynamicConditionFactory>,
    token: DynamicConditionFactory,
)
    ensures
        registered_name(token) matches Some(name) ==> with_all_conditions(
            registry,
        ).dom().contains(name) && with_all_conditions(registry)[name] == token,
{
    lemma_names_are_spelled_out();
    lemma_names_of_one_length_differ();
}

} // verus!
