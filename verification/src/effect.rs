//! What a skill's effects do, to whom, and how strongly.
use vstd::prelude::*;

verus! {

/// What an effect changes.
#[derive(Debug, Clone, Copy, PartialEq, Eq, Structural)]
pub enum SkillType {
    Noop,
    SpeedUp,
    StaminaUp,
    PowerUp,
    GutsUp,
    WisdomUp,
    ChangeStrategy,
    Recovery,
    MultiplyStartDelay,
    RushedDuration,
    SetStartDelay,
    CurrentSpeed,
    CurrentSpeedWithNaturalDeceleration,
    TargetSpeed,
    LaneMovementSpeed,
    RushedChance,
    Accel,
    ChangeLane,
    ActivateRandomGold,
    ExtendEvolvedDuration,
}

impl SkillType {
    /// The type's id in the skill data.
    pub open spec fn data_id(self) -> int {
        match self {
            SkillType::Noop => 0,
            SkillType::SpeedUp => 1,
            SkillType::StaminaUp => 2,
            SkillType::PowerUp => 3,
            SkillType::GutsUp => 4,
            SkillType::WisdomUp => 5,
            SkillType::ChangeStrategy => 6,
            SkillType::Recovery => 9,
            SkillType::MultiplyStartDelay => 10,
            SkillType::RushedDuration => 13,
            SkillType::SetStartDelay => 14,
            SkillType::CurrentSpeed => 21,
            SkillType::CurrentSpeedWithNaturalDeceleration => 22,
            SkillType::TargetSpeed => 27,
            SkillType::LaneMovementSpeed => 28,
            SkillType::RushedChance => 29,
            SkillType::Accel => 31,
            SkillType::ChangeLane => 35,
            SkillType::ActivateRandomGold => 37,
            SkillType::ExtendEvolvedDuration => 42,
        }
    }

    /// The type's id in the skill data.
    pub fn id(self) -> (id: i32)
        ensures
            id == self.data_id(),
            0 <= id < 64,
    {
        match self {
            SkillType::Noop => 0,
            SkillType::SpeedUp => 1,
            SkillType::StaminaUp => 2,
            SkillType::PowerUp => 3,
            SkillType::GutsUp => 4,
            SkillType::WisdomUp => 5,
            SkillType::ChangeStrategy => 6,
            SkillType::Recovery => 9,
            SkillType::MultiplyStartDelay => 10,
            SkillType::RushedDuration => 13,
            SkillType::SetStartDelay => 14,
            SkillType::CurrentSpeed => 21,
            SkillType::CurrentSpeedWithNaturalDeceleration => 22,
            SkillType::TargetSpeed => 27,
            SkillType::LaneMovementSpeed => 28,
            SkillType::RushedChance => 29,
            SkillType::Accel => 31,
            SkillType::ChangeLane => 35,
            SkillType::ActivateRandomGold => 37,
            SkillType::ExtendEvolvedDuration => 42,
        }
    }

    /// The type with data id `id`, if there is one.
    pub fn from_id(id: i32) -> (found: Option<SkillType>)
        ensures
            found == type_with_id(id as int),
    {
        let found = SkillType::look_up(id);
        proof {
            if let Some(t) = found {
                assert(t.data_id() == id);
                data_ids_are_distinct(t, choose|u: SkillType| #[trigger] u.data_id() == id);
            }
        }
        found
    }

    fn look_up(id: i32) -> (found: Option<SkillType>)
        ensures
            match found {
                Some(t) => t.data_id() == id,
                None => forall|t: SkillType| #[trigger] t.data_id() != id,
            },
    {
        match id {
            0 => Some(SkillType::Noop),
            1 => Some(SkillType::SpeedUp),
            2 => Some(SkillType::StaminaUp),
            3 => Some(SkillType::PowerUp),
            4 => Some(SkillType::GutsUp),
            5 => Some(SkillType::WisdomUp),
            6 => Some(SkillType::ChangeStrategy),
            9 => Some(SkillType::Recovery),
            10 => Some(SkillType::MultiplyStartDelay),
            13 => Some(SkillType::RushedDuration),
            14 => Some(SkillType::SetStartDelay),
            21 => Some(SkillType::CurrentSpeed),
            22 => Some(SkillType::CurrentSpeedWithNaturalDeceleration),
            27 => Some(SkillType::TargetSpeed),
            28 => Some(SkillType::LaneMovementSpeed),
            29 => Some(SkillType::RushedChance),
            31 => Some(SkillType::Accel),
            35 => Some(SkillType::ChangeLane),
            37 => Some(SkillType::ActivateRandomGold),
            42 => Some(SkillType::ExtendEvolvedDuration),
            _ => None,
        }
    }
}

/// The type with data id `id`, if there is one.
pub open spec fn type_with_id(id: int) -> Option<SkillType> {
    if exists|t: SkillType| #[trigger] t.data_id() == id {
        Some(choose|t: SkillType| #[trigger] t.data_id() == id)
    } else {
        None
    }
}

/// No two effect types share a data id.
pub proof fn data_ids_are_distinct(a: SkillType, b: SkillType)
    ensures
        a.data_id() == b.data_id() <==> a == b,
{
}

/// Whom an effect reaches.
#[derive(Debug, Clone, Copy, PartialEq, Eq, Structural)]
pub enum SkillTarget {
    SelfTarget,
    All,
    InFov,
    AheadOfPosition,
    AheadOfSelf,
    BehindSelf,
    AllAllies,
    EnemyStrategy,
    KakariAhead,
    KakariBehind,
    KakariStrategy,
    UmaId,
    UsedRecovery,
}

/// A skill's rarity tier.
#[derive(Debug, Clone, Copy, PartialEq, Eq, Structural)]
pub enum SkillRarity {
    White,
    Gold,
    Unique,
    Evolution,
}

/// How an effect's strength is derived when it fires.
#[derive(Debug, Clone, Copy, PartialEq, Eq, Structural)]
pub enum ValueScalingPolicy {
    /// The strength as it stands.
    Direct,
    /// The strength times a random multiplier.
    MultiplyRandom,
    /// The strength as it stands: the data has applied a tier to it already.
    PreAppliedTier,
    /// The strength times a multiplier for the green skills activated so far.
    MultiplyActivatedGreens,
}

/// A usage code that no [`ValueScalingPolicy`] stands for.
#[derive(Debug, Clone, Copy, PartialEq, Eq, Structural)]
pub struct UnsupportedValueUsage(pub i32);

/// The policy a usage code stands for, if any.
pub open spec fn policy_of_usage(usage: Option<i32>) -> Option<ValueScalingPolicy> {
    match usage {
        None => Some(ValueScalingPolicy::Direct),
        Some(code) => if code == 1 {
            Some(ValueScalingPolicy::Direct)
        } else if code == 8 {
            Some(ValueScalingPolicy::MultiplyRandom)
        } else if code == 12 {
            Some(ValueScalingPolicy::PreAppliedTier)
        } else if code == 14 {
            Some(ValueScalingPolicy::MultiplyActivatedGreens)
        } else {
            None
        },
    }
}

impl ValueScalingPolicy {
    /// The policy for a usage code; no code, or 1, is `Direct`.
    pub fn from_value_usage(usage: Option<i32>) -> (policy: Result<
        ValueScalingPolicy,
        UnsupportedValueUsage,
    >)
        ensures
            match policy {
                Ok(p) => policy_of_usage(usage) == Some(p),
                Err(e) => policy_of_usage(usage) is None && usage == Some(e.0),
            },
    {
        match usage {
            None => Ok(ValueScalingPolicy::Direct),
            Some(code) => {
                if code == 1 {
                    Ok(ValueScalingPolicy::Direct)
                } else if code == 8 {
                    Ok(ValueScalingPolicy::MultiplyRandom)
                } else if code == 12 {
                    Ok(ValueScalingPolicy::PreAppliedTier)
                } else if code == 14 {
                    Ok(ValueScalingPolicy::MultiplyActivatedGreens)
                } else {
                    Err(UnsupportedValueUsage(code))
                }
            },
        }
    }
}

/// Whether an effect of this type, target and strength is a debuff on
/// opponents, which the caster never applies to herself: it reaches other
/// runners and either weakens them or lengthens their rushed spell.
pub open spec fn hits_opponents(effect_type: SkillType, target: SkillTarget, modifier: int) -> bool {
    &&& target != SkillTarget::SelfTarget
    &&& target != SkillTarget::AllAllies
    &&& modifier < 0 || (effect_type == SkillType::RushedDuration && modifier > 0)
}

/// See [`hits_opponents`].
pub fn is_external_debuff(effect_type: SkillType, target: SkillTarget, modifier: i64) -> (yes: bool)
    ensures
        yes == hits_opponents(effect_type, target, modifier as int),
{
    target != SkillTarget::SelfTarget && target != SkillTarget::AllAllies && (modifier < 0 || (
    effect_type == SkillType::RushedDuration && modifier > 0))
}

/// A band of random rolls and the multiplier it stands for.
#[derive(Debug, Clone, Copy, PartialEq, Eq, Structural)]
pub struct ScalingBand {
    /// Rolls under this fall in the band.
    pub below: i64,
    /// The multiplier.
    pub multiplier: i64,
}

/// A number of activated green skills and the multiplier from there on.
#[derive(Debug, Clone, Copy, PartialEq, Eq, Structural)]
pub struct GreenTier {
    /// The fewest activated greens of the tier.
    pub at_least: i64,
    /// The multiplier.
    pub multiplier: i64,
}

/// The multiplier of the first band `roll` falls in; 0 past the last band.
pub open spec fn band_multiplier(bands: Seq<ScalingBand>, roll: int) -> int
    decreases bands.len(),
{
    if bands.len() == 0 {
        0
    } else if roll < bands[0].below {
        bands[0].multiplier as int
    } else {
        band_multiplier(bands.skip(1), roll)
    }
}

/// The multiplier of the last tier that `count` reaches; 0 under all of them.
pub open spec fn tier_multiplier(tiers: Seq<GreenTier>, count: int) -> int
    decreases tiers.len(),
{
    if tiers.len() == 0 {
        0
    } else if count >= tiers.last().at_least {
        tiers.last().multiplier as int
    } else {
        tier_multiplier(tiers.drop_last(), count)
    }
}

/// See [`band_multiplier`].
pub fn find_band_multiplier(bands: &Vec<ScalingBand>, roll: i64) -> (m: i64)
    ensures
        m == band_multiplier(bands@, roll as int),
{
    let mut i: usize = 0;
    proof {
        assert(bands@.skip(0) =~= bands@);
    }
    while i < bands.len()
        invariant
            i <= bands.len(),
            band_multiplier(bands@, roll as int) == band_multiplier(
                bands@.skip(i as int),
                roll as int,
            ),
        decreases bands.len() - i,
    {
        if roll < bands[i].below {
            return bands[i].multiplier;
        }
        proof {
            assert(bands@.skip(i as int).skip(1) =~= bands@.skip(i + 1));
        }
        i = i + 1;
    }
    0
}

/// See [`tier_multiplier`].
pub fn find_tier_multiplier(tiers: &Vec<GreenTier>, count: i64) -> (m: i64)
    ensures
        m == tier_multiplier(tiers@, count as int),
{
    let mut i: usize = tiers.len();
    proof {
        assert(tiers@.take(i as int) =~= tiers@);
    }
    while i > 0
        invariant
            i <= tiers.len(),
            tier_multiplier(tiers@, count as int) == tier_multiplier(
                tiers@.take(i as int),
                count as int,
            ),
        decreases i,
    {
        if count >= tiers[i - 1].at_least {
            return tiers[i - 1].multiplier;
        }
        proof {
            assert(tiers@.take(i as int).drop_last() =~= tiers@.take(i - 1));
        }
        i = i - 1;
    }
    0
}

} // verus!
