//! Order and position conditions: the runner's current and previous place, the
//! size of the field, and the leader's and the last runner's positions.
use crate::condition::dynamic::{
    on_band_side, order_rate_band_holds, place_of_rate, rate_place, read_truth, read_whole,
    readable, reading_view, register_dynamic_condition, truth, whole, ConditionRegistry,
    ConditionTimers, DynamicConditionFactory, FieldView, OrderRateBand, OrderToken, OwnState,
    Reading, RunnerView, ORDER_CONTINUE_GRACE_SECONDS,
};
use crate::units::ONE;
use vstd::prelude::*;

verus! {

/// Whether the runner has kept to a band "for the entire race until now": past
/// the grace period, on the band's side of its threshold place this tick, and
/// on every tick before it that a live field has latched.
pub open spec fn band_kept(
    band: OrderRateBand,
    is_in_rate: bool,
    order: int,
    own: OwnState,
    field: FieldView,
) -> bool {
    &&& own.accumulate_time > ORDER_CONTINUE_GRACE_SECONDS
    &&& on_band_side(order, rate_place(field.num_umas as int, band.share()), is_in_rate)
    &&& field.condition_timers matches Some(t) ==> if is_in_rate {
        t.in_band.flag(band)
    } else {
        t.out_band.flag(band)
    }
}

fn order_rate_continue(view: &RunnerView<'_>, band: OrderRateBand, is_in_rate: bool) -> (r: Option<
    Reading,
>)
    ensures
        readable(r),
        reading_view(r) == match view.field.self_order {
            Some(order) => truth(band_kept(band, is_in_rate, order as int, view.own, *view.field)),
            None => None,
        },
{
    let order: i64 = match view.field.self_order {
        Some(order) => order,
        None => {
            return None;
        },
    };
    let threshold: i128 = place_of_rate(view.field.num_umas, band.percent());
    let within_rate = order_rate_band_holds(order, threshold, is_in_rate);
    let held = match view.field.condition_timers {
        Some(t) => {
            if is_in_rate {
                t.in_band.get(band)
            } else {
                t.out_band.get(band)
            }
        },
        None => true,
    };
    read_truth(
        view.own.accumulate_time > ORDER_CONTINUE_GRACE_SECONDS && within_rate && held,
    )
}

/// The window a `change_order_up_*` token counts overtakes in.
#[derive(Debug, Clone, Copy, PartialEq, Eq, Structural)]
pub enum OrderUpWindow {
    Middle,
    EndAfter,
    FinalCornerAfter,
}

/// Runners passed in the window so far.
pub open spec fn passed_in(window: OrderUpWindow, timers: ConditionTimers) -> int {
    match window {
        OrderUpWindow::Middle => timers.order_up_middle as int,
        OrderUpWindow::EndAfter => timers.order_up_end_after as int,
        OrderUpWindow::FinalCornerAfter => timers.order_up_finalcorner_after as int,
    }
}

/// How many runners she has passed in the window; without a live field, only
/// whether she moved up this tick.
pub open spec fn order_up_reading(window: OrderUpWindow, field: FieldView) -> Option<(int, int)> {
    match field.condition_timers {
        Some(t) => whole(passed_in(window, t)),
        None => match (field.self_previous_order, field.self_order) {
            (Some(previous), Some(current)) => truth(current < previous),
            _ => None,
        },
    }
}

fn change_order_up(view: &RunnerView<'_>, window: OrderUpWindow) -> (r: Option<Reading>)
    ensures
        readable(r),
        reading_view(r) == order_up_reading(window, *view.field),
{
    if let Some(t) = view.field.condition_timers {
        let passed: i64 = match window {
            OrderUpWindow::Middle => t.order_up_middle,
            OrderUpWindow::EndAfter => t.order_up_end_after,
            OrderUpWindow::FinalCornerAfter => t.order_up_finalcorner_after,
        };
        return read_whole(passed);
    }
    match (view.field.self_previous_order, view.field.self_order) {
        (Some(previous), Some(current)) => read_truth(current < previous),
        _ => None,
    }
}

/// How far the runner is behind the leader; 0 for one level with or ahead of
/// the recorded leader.
pub open spec fn gap_to_leader(leader: int, position: int) -> int {
    if leader > position {
        leader - position
    } else {
        0
    }
}

fn leader_gap(leader: i64, position: i64) -> (gap: i128)
    ensures
        gap == gap_to_leader(leader as int, position as int),
        0 <= gap <= 0xffff_ffff_ffff_ffff,
{
    if leader > position {
        leader as i128 - position as i128
    } else {
        0
    }
}

/// The gap to the leader as a percentage of the field's spread; 0 where the
/// field has none.
pub open spec fn spread_reading(leader: int, last: int, position: int) -> Option<(int, int)> {
    if leader > last {
        Some((gap_to_leader(leader, position) * 100, leader - last))
    } else {
        Some((0, 1))
    }
}

/// The value of an order token.
pub open spec fn order_reading(token: OrderToken, own: OwnState, field: FieldView) -> Option<
    (int, int),
> {
    match token {
        OrderToken::Order | OrderToken::OrderRate => match field.self_order {
            Some(order) => whole(order as int),
            None => None,
        },
        OrderToken::OrderRateInContinue(band) => match field.self_order {
            Some(order) => truth(band_kept(band, true, order as int, own, field)),
            None => None,
        },
        OrderToken::OrderRateOutContinue(band) => match field.self_order {
            Some(order) => truth(band_kept(band, false, order as int, own, field)),
            None => None,
        },
        OrderToken::ChangeOrderOnetime => match (field.self_previous_order, field.self_order) {
            (Some(previous), Some(current)) => whole(current - previous),
            _ => None,
        },
        OrderToken::ChangeOrderUpEndAfter => order_up_reading(OrderUpWindow::EndAfter, field),
        OrderToken::ChangeOrderUpFinalcornerAfter => order_up_reading(
            OrderUpWindow::FinalCornerAfter,
            field,
        ),
        OrderToken::ChangeOrderUpMiddle => order_up_reading(OrderUpWindow::Middle, field),
        OrderToken::DistanceDiffTop => match field.leader_position {
            Some(leader) => whole(gap_to_leader(leader as int, own.position as int) / ONE as int),
            None => None,
        },
        OrderToken::DistanceDiffTopFloat => match field.leader_position {
            Some(leader) => Some(
                (gap_to_leader(leader as int, own.position as int) * 10, ONE as int),
            ),
            None => None,
        },
        OrderToken::DistanceDiffRate => match (field.leader_position, field.last_position) {
            (Some(leader), Some(last)) => spread_reading(
                leader as int,
                last as int,
                own.position as int,
            ),
            _ => None,
        },
        OrderToken::IsBehindIn => match field.condition_timers {
            Some(t) => truth(t.behind_is_inner),
            None => None,
        },
    }
}

/// Read an order token's value.
pub fn read_order(token: OrderToken, view: &RunnerView<'_>) -> (r: Option<Reading>)
    ensures
        readable(r),
        reading_view(r) == order_reading(token, view.own, *view.field),
        token == OrderToken::OrderRate && r is Some ==> r->0.per == 1,
{
    match token {
        OrderToken::Order | OrderToken::OrderRate => match view.field.self_order {
            Some(order) => read_whole(order),
            None => None,
        },
        OrderToken::OrderRateInContinue(band) => order_rate_continue(view, band, true),
        OrderToken::OrderRateOutContinue(band) => order_rate_continue(view, band, false),
        OrderToken::ChangeOrderOnetime => match (
            view.field.self_previous_order,
            view.field.self_order,
        ) {
            (Some(previous), Some(current)) => Some(
                Reading { value: current as i128 - previous as i128, per: 1 },
            ),
            _ => None,
        },
        OrderToken::ChangeOrderUpEndAfter => change_order_up(view, OrderUpWindow::EndAfter),
        OrderToken::ChangeOrderUpFinalcornerAfter => change_order_up(
            view,
            OrderUpWindow::FinalCornerAfter,
        ),
        OrderToken::ChangeOrderUpMiddle => change_order_up(view, OrderUpWindow::Middle),
        OrderToken::DistanceDiffTop => match view.field.leader_position {
            Some(leader) => Some(
                Reading { value: leader_gap(leader, view.own.position) / ONE as i128, per: 1 },
            ),
            None => None,
        },
        OrderToken::DistanceDiffTopFloat => match view.field.leader_position {
            Some(leader) => Some(
                Reading { value: leader_gap(leader, view.own.position) * 10, per: ONE as i128 },
            ),
            None => None,
        },
        OrderToken::DistanceDiffRate => match (
            view.field.leader_position,
            view.field.last_position,
        ) {
            (Some(leader), Some(last)) => {
                if leader > last {
                    Some(
                        Reading {
                            value: leader_gap(leader, view.own.position) * 100,
                            per: leader as i128 - last as i128,
                        },
                    )
                } else {
                    Some(Reading { value: 0, per: 1 })
                }
            },
            _ => None,
        },
        OrderToken::IsBehindIn => match view.field.condition_timers {
            Some(t) => read_truth(t.behind_is_inner),
            None => None,
        },
    }
}

/// `registry` with the order family registered.
pub open spec fn with_order_conditions(
    registry: Map<Seq<char>, DynamicConditionFactory>,
) -> Map<Seq<char>, DynamicConditionFactory> {
    registry.insert("order"@, DynamicConditionFactory::Order(OrderToken::Order)).insert(
        "order_rate"@,
        DynamicConditionFactory::Order(OrderToken::OrderRate),
    ).insert(
        "order_rate_in20_continue"@,
        DynamicConditionFactory::Order(OrderToken::OrderRateInContinue(OrderRateBand::Top20)),
    ).insert(
        "order_rate_in40_continue"@,
        DynamicConditionFactory::Order(OrderToken::OrderRateInContinue(OrderRateBand::Top40)),
    ).insert(
        "order_rate_in50_continue"@,
        DynamicConditionFactory::Order(OrderToken::OrderRateInContinue(OrderRateBand::Top50)),
    ).insert(
        "order_rate_in80_continue"@,
        DynamicConditionFactory::Order(OrderToken::OrderRateInContinue(OrderRateBand::Top80)),
    ).insert(
        "order_rate_out20_continue"@,
        DynamicConditionFactory::Order(OrderToken::OrderRateOutContinue(OrderRateBand::Top20)),
    ).insert(
        "order_rate_out40_continue"@,
        DynamicConditionFactory::Order(OrderToken::OrderRateOutContinue(OrderRateBand::Top40)),
    ).insert(
        "order_rate_out50_continue"@,
        DynamicConditionFactory::Order(OrderToken::OrderRateOutContinue(OrderRateBand::Top50)),
    ).insert(
        "order_rate_out70_continue"@,
        DynamicConditionFactory::Order(OrderToken::OrderRateOutContinue(OrderRateBand::Top70)),
    ).insert(
        "change_order_onetime"@,
        DynamicConditionFactory::Order(OrderToken::ChangeOrderOnetime),
    ).insert(
        "change_order_up_end_after"@,
        DynamicConditionFactory::Order(OrderToken::ChangeOrderUpEndAfter),
    ).insert(
        "change_order_up_finalcorner_after"@,
        DynamicConditionFactory::Order(OrderToken::ChangeOrderUpFinalcornerAfter),
    ).insert(
        "change_order_up_middle"@,
        DynamicConditionFactory::Order(OrderToken::ChangeOrderUpMiddle),
    ).insert(
        "distance_diff_top"@,
        DynamicConditionFactory::Order(OrderToken::DistanceDiffTop),
    ).insert(
        "distance_diff_top_float"@,
        DynamicConditionFactory::Order(OrderToken::DistanceDiffTopFloat),
    ).insert(
        "distance_diff_rate"@,
        DynamicConditionFactory::Order(OrderToken::DistanceDiffRate),
    ).insert("is_behind_in"@, DynamicConditionFactory::Order(OrderToken::IsBehindIn))
}

fn register_order(registry: &mut ConditionRegistry, name: &'static str, token: OrderToken)
    ensures
        final(registry)@ == old(registry)@.insert(name@, DynamicConditionFactory::Order(token)),
        final(registry).all_registered() == old(registry).all_registered(),
{
    register_dynamic_condition(registry, name, DynamicConditionFactory::Order(token));
}

/// Register every order / position condition.
pub fn register_order_conditions(registry: &mut ConditionRegistry)
    ensures
        final(registry)@ == with_order_conditions(old(registry)@),
        final(registry).all_registered() == old(registry).all_registered(),
{
    register_order(registry, "order", OrderToken::Order);
    register_order(registry, "order_rate", OrderToken::OrderRate);
    register_order(
        registry,
        "order_rate_in20_continue",
        OrderToken::OrderRateInContinue(OrderRateBand::Top20),
    );
    register_order(
        registry,
        "order_rate_in40_continue",
        OrderToken::OrderRateInContinue(OrderRateBand::Top40),
    );
    register_order(
        registry,
        "order_rate_in50_continue",
        OrderToken::OrderRateInContinue(OrderRateBand::Top50),
    );
    register_order(
        registry,
        "order_rate_in80_continue",
        OrderToken::OrderRateInContinue(OrderRateBand::Top80),
    );
    register_order(
        registry,
        "order_rate_out20_continue",
        OrderToken::OrderRateOutContinue(OrderRateBand::Top20),
    );
    register_order(
        registry,
        "order_rate_out40_continue",
        OrderToken::OrderRateOutContinue(OrderRateBand::Top40),
    );
    register_order(
        registry,
        "order_rate_out50_continue",
        OrderToken::OrderRateOutContinue(OrderRateBand::Top50),
    );
    register_order(
        registry,
        "order_rate_out70_continue",
        OrderToken::OrderRateOutContinue(OrderRateBand::Top70),
    );
    register_order(registry, "change_order_onetime", OrderToken::ChangeOrderOnetime);
    register_order(registry, "change_order_up_end_after", OrderToken::ChangeOrderUpEndAfter);
    register_order(
        registry,
        "change_order_up_finalcorner_after",
        OrderToken::ChangeOrderUpFinalcornerAfter,
    );
    register_order(registry, "change_order_up_middle", OrderToken::ChangeOrderUpMiddle);
    register_order(registry, "distance_diff_top", OrderToken::DistanceDiffTop);
    register_order(registry, "distance_diff_top_float", OrderToken::DistanceDiffTopFloat);
    register_order(registry, "distance_diff_rate", OrderToken::DistanceDiffRate);
    register_order(registry, "is_behind_in", OrderToken::IsBehindIn);
}

} // verus!
