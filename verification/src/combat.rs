//! The damage and healing arithmetic shared by actual strikes and by the
//! branches of a combat forecast, the order in which the two sides strike,
//! and what one hit does to the state of a fight. The chances of each
//! branch are weighed by the caller.
use vstd::prelude::*;

verus! {

/// The damage a strike actually inflicts: its damage (never negative), but
/// no more than the target has.
pub open spec fn spec_inflicted(target: int, damage: int) -> int {
    let d = if damage > 0 { damage } else { 0 };
    if d < target { d } else { target }
}

/// Integer division rounding toward zero, as Rust divides.
pub open spec fn trunc_div(a: int, b: int) -> int {
    if a >= 0 {
        a / b
    } else {
        -((-a) / b)
    }
}

/// `v` limited to `lo..=hi`.
pub open spec fn clamp(v: int, lo: int, hi: int) -> int {
    if v < lo {
        lo
    } else if v > hi {
        hi
    } else {
        v
    }
}

/// The source's hit points after draining `heal_percent` of the inflicted
/// damage plus `heal_constant`, kept within `minimum_source_hp..=maximum`.
pub open spec fn spec_healed(
    source: int,
    inflicted: int,
    heal_percent: int,
    heal_constant: int,
) -> int {
    source + trunc_div(inflicted * heal_percent, 100) + heal_constant
}

/// The arithmetic of `impact` stays inside `i64`.
pub open spec fn impact_fits(
    source: int,
    target: int,
    damage: int,
    heal_percent: int,
    heal_constant: int,
) -> bool {
    let inflicted = spec_inflicted(target, damage);
    let drained = inflicted * heal_percent;
    &&& i64::MIN <= drained <= i64::MAX
    &&& i64::MIN <= source + trunc_div(drained, 100) <= i64::MAX
    &&& i64::MIN <= spec_healed(source, inflicted, heal_percent, heal_constant) <= i64::MAX
}

/// The hit points of source and target after one strike of `damage`.
pub fn impact(
    source: i64,
    target: i64,
    maximum: i64,
    damage: i64,
    heal_percent: i64,
    heal_constant: i64,
    minimum_source_hp: i64,
) -> (r: (i64, i64))
    requires
        minimum_source_hp <= maximum,
        impact_fits(
            source as int,
            target as int,
            damage as int,
            heal_percent as int,
            heal_constant as int,
        ),
    ensures
        r.0 == clamp(
            spec_healed(
                source as int,
                spec_inflicted(target as int, damage as int),
                heal_percent as int,
                heal_constant as int,
            ),
            minimum_source_hp as int,
            maximum as int,
        ),
        r.1 == target - spec_inflicted(target as int, damage as int),
{
    let d = if damage > 0 { damage } else { 0 };
    let inflicted = if d < target { d } else { target };
    let drained = inflicted * heal_percent;
    let share = drained / 100;
    assert(share == trunc_div(drained as int, 100));
    let healed = source + share + heal_constant;
    let kept = if healed < minimum_source_hp {
        minimum_source_hp
    } else if healed > maximum {
        maximum
    } else {
        healed
    };
    (kept, target - inflicted)
}


/// A strike never takes more than the target has, never heals the target,
/// and leaves the source within its bounds.
pub proof fn lemma_impact_bounds(
    source: int,
    target: int,
    maximum: int,
    damage: int,
    heal_percent: int,
    heal_constant: int,
    minimum_source_hp: int,
)
    requires
        minimum_source_hp <= maximum,
        target >= 0,
    ensures
        0 <= target - spec_inflicted(target, damage) <= target,
        minimum_source_hp <= clamp(
            spec_healed(source, spec_inflicted(target, damage), heal_percent, heal_constant),
            minimum_source_hp,
            maximum,
        ) <= maximum,
{
}

/// Whether the arithmetic of `impact` stays inside `i64`, decided on the
/// values themselves.
pub fn impact_in_range(
    source: i64,
    target: i64,
    damage: i64,
    heal_percent: i64,
    heal_constant: i64,
) -> (r: bool)
    ensures
        r == impact_fits(
            source as int,
            target as int,
            damage as int,
            heal_percent as int,
            heal_constant as int,
        ),
{
    let d: i128 = if damage > 0 { damage as i128 } else { 0 };
    let inflicted: i128 = if d < target as i128 { d } else { target as i128 };
    assert(inflicted == spec_inflicted(target as int, damage as int));
    assert(-0x8000_0000_0000_0000 <= inflicted <= 0x7fff_ffff_ffff_ffff);
    assert(-0x8000_0000_0000_0000 <= heal_percent <= 0x7fff_ffff_ffff_ffff);
    assert(-0x4000_0000_0000_0000_0000_0000_0000_0000 <= inflicted * (heal_percent as i128)
        <= 0x4000_0000_0000_0000_0000_0000_0000_0000) by (nonlinear_arith)
        requires
            -0x8000_0000_0000_0000 <= inflicted <= 0x8000_0000_0000_0000,
            -0x8000_0000_0000_0000 <= heal_percent <= 0x8000_0000_0000_0000,
    ;
    let drained: i128 = inflicted * heal_percent as i128;
    if drained < i64::MIN as i128 || drained > i64::MAX as i128 {
        return false;
    }
    let share: i128 = drained / 100;
    assert(share == trunc_div(drained as int, 100));
    let partial: i128 = source as i128 + share;
    if partial < i64::MIN as i128 || partial > i64::MAX as i128 {
        return false;
    }
    let healed: i128 = partial + heal_constant as i128;
    healed >= i64::MIN as i128 && healed <= i64::MAX as i128
}

/// The state of a fight between two sides (0 attacks, 1 defends): their hit
/// points, whether each is slowed, whether the fight has stopped, and
/// whether each has been hit.
#[derive(Clone, Copy, Debug, PartialEq, Eq, PartialOrd, Ord)]
pub struct Fight {
    pub hp: [i64; 2],
    pub slow: [bool; 2],
    pub stopped: bool,
    pub hit: [bool; 2],
}

/// What a weapon does when it hits.
#[derive(Clone, Copy, Debug, PartialEq, Eq)]
pub struct Weapon {
    pub damage: i64,
    pub slowed_damage: i64,
    pub slow: bool,
    pub heal_percent: i64,
    pub heal_constant: i64,
    pub minimum_source_hp: i64,
    pub petrify: bool,
}

/// The damage a weapon deals from a side that is slowed or not.
pub open spec fn strike_damage(w: Weapon, slowed: bool) -> int {
    if slowed {
        w.slowed_damage as int
    } else {
        w.damage as int
    }
}

/// The arithmetic of a hit by `source` stays inside `i64`.
pub open spec fn hit_fits(f: Fight, w: Weapon, source: int) -> bool {
    impact_fits(
        f.hp[source] as int,
        f.hp[1 - source] as int,
        strike_damage(w, f.slow[source]),
        w.heal_percent as int,
        w.heal_constant as int,
    )
}

/// The fight after `source` hits with `w`: the target loses what the hit
/// inflicts, the source drains its share within `minimum_source_hp..=maximum`,
/// a slowing weapon slows the target, the target counts as hit, and the
/// fight stops on petrification or when either side has no hit points left.
pub fn after_hit(f: Fight, w: &Weapon, source: usize, maximum: i64) -> (r: Fight)
    requires
        source < 2,
        w.minimum_source_hp <= maximum,
        hit_fits(f, *w, source as int),
    ensures
        ({
            let target = 1 - source;
            let inflicted = spec_inflicted(f.hp[target] as int, strike_damage(*w, f.slow[source as int]));
            &&& r.hp[source as int] == clamp(
                spec_healed(f.hp[source as int] as int, inflicted, w.heal_percent as int, w.heal_constant as int),
                w.minimum_source_hp as int,
                maximum as int,
            )
            &&& r.hp[target] == f.hp[target] - inflicted
            &&& r.slow[source as int] == f.slow[source as int]
            &&& r.slow[target] == (f.slow[target] || w.slow)
            &&& r.hit[source as int] == f.hit[source as int]
            &&& r.hit[target]
            &&& r.stopped == (w.petrify || r.hp[source as int] == 0 || r.hp[target] == 0)
        }),
{
    let target = 1 - source;
    let damage = if f.slow[source] {
        w.slowed_damage
    } else {
        w.damage
    };
    let (s, t) = impact(
        f.hp[source],
        f.hp[target],
        maximum,
        damage,
        w.heal_percent,
        w.heal_constant,
        w.minimum_source_hp,
    );
    let mut hp = f.hp;
    hp.set(source, s);
    hp.set(target, t);
    let mut slow = f.slow;
    slow.set(target, f.slow[target] || w.slow);
    let mut hit = f.hit;
    hit.set(target, true);
    Fight { hp, slow, stopped: w.petrify || s == 0 || t == 0, hit }
}

/// The sides that strike in round `round`, in order: the defender first
/// where it retaliates first; a side strikes while it has strikes left.
pub open spec fn round_sides(strikes: (int, int), retaliation_first: bool, round: int) -> Seq<int> {
    let order = if retaliation_first { seq![1int, 0] } else { seq![0int, 1] };
    order.filter(|side: int| round < if side == 0 { strikes.0 } else { strikes.1 })
}

/// The sides that strike in rounds `0..n`.
pub open spec fn rounds(strikes: (int, int), retaliation_first: bool, n: nat) -> Seq<int>
    decreases n,
{
    if n == 0 {
        seq![]
    } else {
        rounds(strikes, retaliation_first, (n - 1) as nat) + round_sides(
            strikes,
            retaliation_first,
            n - 1,
        )
    }
}

/// The order of strikes: an explicit sequence of sides 1 and 2, taken as
/// sides 0 and 1, or else as many rounds as the side with more strikes has.
pub open spec fn spec_strike_sequence(
    strikes: (int, int),
    retaliation_first: bool,
    sequence: Option<Seq<int>>,
) -> Result<Seq<int>, Seq<char>> {
    match sequence {
        Some(s) => if exists|i: int| 0 <= i < s.len() && !(1 <= #[trigger] s[i] <= 2) {
            Err("combat sequence side must be 1 or 2"@)
        } else {
            Ok(s.map_values(|side: int| side - 1))
        },
        None => Ok(
            rounds(
                strikes,
                retaliation_first,
                (if strikes.0 >= strikes.1 { strikes.0 } else { strikes.1 }) as nat,
            ),
        ),
    }
}

/// The side that strikes at position `i` of a fight without an explicit
/// sequence: the sides alternate, the first striker leading, for as long as
/// both have strikes left; then the side with more strikes strikes alone.
pub open spec fn expected_striker(strikes: (int, int), retaliation_first: bool, i: int) -> int {
    let both = if strikes.0 <= strikes.1 { strikes.0 } else { strikes.1 };
    let first = if retaliation_first { 1int } else { 0int };
    if i < 2 * both {
        if i % 2 == 0 { first } else { 1 - first }
    } else if strikes.0 > strikes.1 {
        0
    } else {
        1
    }
}

proof fn lemma_pair_filter(a: int, b: int, p: spec_fn(int) -> bool)
    ensures
        seq![a, b].filter(p) == if p(a) && p(b) {
            seq![a, b]
        } else if p(a) {
            seq![a]
        } else if p(b) {
            seq![b]
        } else {
            Seq::<int>::empty()
        },
{
    reveal_with_fuel(Seq::filter, 3);
    assert(seq![a, b].drop_last() =~= seq![a]);
    assert(seq![a].drop_last() =~= Seq::<int>::empty());
    if p(a) && p(b) {
        assert(seq![a].push(b) =~= seq![a, b]);
        assert(Seq::<int>::empty().push(a) =~= seq![a]);
    } else if p(a) {
        assert(Seq::<int>::empty().push(a) =~= seq![a]);
    } else if p(b) {
        assert(Seq::<int>::empty().push(b) =~= seq![b]);
    }
}

proof fn lemma_rounds_shape(strikes: (int, int), retaliation_first: bool, n: nat)
    requires
        strikes.0 >= 0,
        strikes.1 >= 0,
    ensures
        rounds(strikes, retaliation_first, n).len() == (if n <= strikes.0 { n as int } else { strikes.0 })
            + (if n <= strikes.1 { n as int } else { strikes.1 }),
        forall|i: int|
            0 <= i < rounds(strikes, retaliation_first, n).len() ==> #[trigger] rounds(
                strikes,
                retaliation_first,
                n,
            )[i] == expected_striker(strikes, retaliation_first, i),
    decreases n,
{
    if n > 0 {
        let m = (n - 1) as nat;
        lemma_rounds_shape(strikes, retaliation_first, m);
        let order = if retaliation_first { seq![1int, 0] } else { seq![0int, 1] };
        let p = |side: int| m < if side == 0 { strikes.0 } else { strikes.1 };
        lemma_pair_filter(order[0], order[1], p);
        assert(order == seq![order[0], order[1]]);
        let prev = rounds(strikes, retaliation_first, m);
        let here = round_sides(strikes, retaliation_first, m as int);
        assert(here == order.filter(p));
        let all = rounds(strikes, retaliation_first, n);
        assert(all == prev + here);
        let both = if strikes.0 <= strikes.1 { strikes.0 } else { strikes.1 };
        assert forall|i: int| 0 <= i < all.len() implies #[trigger] all[i] == expected_striker(
            strikes,
            retaliation_first,
            i,
        ) by {
            if i >= prev.len() {
                let j = i - prev.len();
                assert(all[i] == here[j]);
                if m < both {
                    assert(prev.len() == 2 * m);
                    assert(i == 2 * m + j);
                    assert((2 * m) % 2 == 0);
                    assert((2 * m + 1) % 2 == 1);
                } else {
                    assert(prev.len() == both + m);
                }
            } else {
                assert(all[i] == prev[i]);
            }
        }
    }
}

/// Without an explicit sequence, every strike of both sides is made once:
/// the sides alternate, the defender leading where it retaliates first and
/// the attacker leading otherwise, for as long as both have strikes left,
/// and then the side with more strikes makes the rest.
pub proof fn lemma_strike_order(strikes: (int, int), retaliation_first: bool)
    requires
        strikes.0 >= 0,
        strikes.1 >= 0,
    ensures
        spec_strike_sequence(strikes, retaliation_first, None) matches Ok(s) && s.len() == strikes.0
            + strikes.1 && forall|i: int|
            0 <= i < s.len() ==> #[trigger] s[i] == expected_striker(strikes, retaliation_first, i),
        retaliation_first && strikes.1 > 0 ==> (spec_strike_sequence(strikes, retaliation_first, None)
            matches Ok(s) && s[0] == 1),
        !retaliation_first && strikes.0 > 0 ==> (spec_strike_sequence(strikes, retaliation_first, None)
            matches Ok(s) && s[0] == 0),
{
    let n = (if strikes.0 >= strikes.1 { strikes.0 } else { strikes.1 }) as nat;
    lemma_rounds_shape(strikes, retaliation_first, n);
    let s = rounds(strikes, retaliation_first, n);
    if strikes.0 + strikes.1 > 0 {
        assert(s[0] == expected_striker(strikes, retaliation_first, 0));
    }
}

/// The order in which the sides strike.
pub fn strike_sequence(strikes: [usize; 2], retaliation_first: bool, sequence: Option<Vec<usize>>) -> (r:
    Result<Vec<usize>, String>)
    ensures
        match r {
            Ok(v) => spec_strike_sequence(
                (strikes[0] as int, strikes[1] as int),
                retaliation_first,
                match sequence {
                    Some(s) => Some(s@.map_values(|x: usize| x as int)),
                    None => None,
                },
            ) == Ok::<Seq<int>, Seq<char>>(v@.map_values(|x: usize| x as int)),
            Err(m) => spec_strike_sequence(
                (strikes[0] as int, strikes[1] as int),
                retaliation_first,
                match sequence {
                    Some(s) => Some(s@.map_values(|x: usize| x as int)),
                    None => None,
                },
            ) == Err::<Seq<int>, Seq<char>>(m@),
        },
{
    match &sequence {
        Some(s) => {
            let ghost sv = s@.map_values(|x: usize| x as int);
            let mut out: Vec<usize> = Vec::new();
            let mut i: usize = 0;
            while i < s.len()
                invariant
                    i <= s.len(),
                    sequence == Some(*s),
                    sv == s@.map_values(|x: usize| x as int),
                    forall|j: int| 0 <= j < i ==> 1 <= #[trigger] sv[j] <= 2,
                    out@.map_values(|x: usize| x as int) == sv.take(i as int).map_values(
                        |side: int| side - 1,
                    ),
                decreases s.len() - i,
            {
                if s[i] < 1 || s[i] > 2 {
                    assert(!(1 <= sv[i as int] <= 2));
                    assert(sv.len() == s.len());
                    assert(exists|j: int| 0 <= j < sv.len() && !(1 <= #[trigger] sv[j] <= 2));
                    return Err(String::from_str("combat sequence side must be 1 or 2"));
                }
                let ghost prev = out@;
                out.push(s[i] - 1);
                assert(out@.map_values(|x: usize| x as int) =~= prev.map_values(|x: usize| x as int).push(sv[i as int] - 1));
                assert(sv.take(i + 1).map_values(|side: int| side - 1) =~= sv.take(i as int).map_values(
                    |side: int| side - 1,
                ).push(sv[i as int] - 1));
                i = i + 1;
            }
            assert(sv.take(i as int) =~= sv);
            Ok(out)
        },
        None => {
            let total = if strikes[0] >= strikes[1] {
                strikes[0]
            } else {
                strikes[1]
            };
            let ghost sp = (strikes[0] as int, strikes[1] as int);
            let mut out: Vec<usize> = Vec::new();
            let mut round: usize = 0;
            while round < total
                invariant
                    round <= total,
                    sp == (strikes[0] as int, strikes[1] as int),
                    out@.map_values(|x: usize| x as int) == rounds(sp, retaliation_first, round as nat),
                decreases total - round,
            {
                let ghost before = out@.map_values(|x: usize| x as int);
                let ghost ord = if retaliation_first { seq![1int, 0] } else { seq![0int, 1] };
                let ghost keep = |side: int| (round as int) < if side == 0 { sp.0 } else { sp.1 };
                let mut k: usize = 0;
                while k < 2
                    invariant
                        k <= 2,
                        retaliation_first ==> ord == seq![1int, 0],
                        !retaliation_first ==> ord == seq![0int, 1],
                        ord.len() == 2,
                        keep == (|side: int| (round as int) < if side == 0 { sp.0 } else { sp.1 }),
                        sp == (strikes[0] as int, strikes[1] as int),
                        out@.map_values(|x: usize| x as int) == before + ord.take(k as int).filter(keep),
                    decreases 2 - k,
                {
                    let side: usize = if retaliation_first { 1 - k } else { k };
                    assert(ord[k as int] == side as int);
                    proof {
                        assert(ord.take(k + 1).drop_last() =~= ord.take(k as int));
                        reveal(Seq::filter);
                    }
                    if round < strikes[side] {
                        let ghost prev = out@;
                        out.push(side);
                        assert(out@.map_values(|x: usize| x as int) =~= prev.map_values(|x: usize| x as int).push(side as int));
                    }
                    k = k + 1;
                }
                assert(ord.take(2) =~= ord);
                assert(round_sides(sp, retaliation_first, round as int) == ord.filter(keep));
                round = round + 1;
            }
            Ok(out)
        },
    }
}

proof fn lemma_filter_single(a: int, p: spec_fn(int) -> bool)
    ensures
        seq![a].filter(p) == if p(a) { seq![a] } else { Seq::<int>::empty() },
{
    reveal(Seq::filter);
    assert(seq![a].drop_last() =~= Seq::<int>::empty());
    assert(Seq::<int>::empty().filter(p) =~= Seq::<int>::empty());
    if p(a) {
        assert(Seq::<int>::empty().push(a) =~= seq![a]);
    }
}

proof fn lemma_filter_pair(a: int, b: int, p: spec_fn(int) -> bool)
    ensures
        seq![a, b].filter(p) == seq![a].filter(p) + seq![b].filter(p),
{
    assert(seq![a, b] =~= seq![a] + seq![b]);
    Seq::filter_distributes_over_add(seq![a], seq![b], p);
}

/// How many of the strikes of round `round` come from `side`.
proof fn lemma_round_count(strikes: (int, int), retaliation_first: bool, round: int, side: int)
    requires
        0 <= side < 2,
    ensures
        round_sides(strikes, retaliation_first, round).filter(|x: int| x == side).len() == if round
            < (if side == 0 { strikes.0 } else { strikes.1 }) {
            1int
        } else {
            0int
        },
{
    let keep = |s: int| round < if s == 0 { strikes.0 } else { strikes.1 };
    let same = |x: int| x == side;
    let (a, b) = if retaliation_first { (1int, 0int) } else { (0int, 1int) };
    assert(round_sides(strikes, retaliation_first, round) == seq![a, b].filter(keep));
    lemma_filter_pair(a, b, keep);
    lemma_filter_single(a, keep);
    lemma_filter_single(b, keep);
    let ka = seq![a].filter(keep);
    let kb = seq![b].filter(keep);
    Seq::filter_distributes_over_add(ka, kb, same);
    if keep(a) {
        lemma_filter_single(a, same);
    } else {
        assert(ka.filter(same) =~= Seq::<int>::empty()) by {
            reveal(Seq::filter);
        }
    }
    if keep(b) {
        lemma_filter_single(b, same);
    } else {
        assert(kb.filter(same) =~= Seq::<int>::empty()) by {
            reveal(Seq::filter);
        }
    }
}

/// Without an explicit order, each side strikes exactly as many times as
/// it has strikes.
pub proof fn lemma_each_side_strikes_its_strikes(
    strikes: (int, int),
    retaliation_first: bool,
    side: int,
)
    requires
        0 <= side < 2,
        strikes.0 >= 0,
        strikes.1 >= 0,
    ensures
        spec_strike_sequence(strikes, retaliation_first, None) matches Ok(s) && s.filter(
            |x: int| x == side,
        ).len() == if side == 0 { strikes.0 } else { strikes.1 },
{
    let total = if strikes.0 >= strikes.1 { strikes.0 } else { strikes.1 };
    lemma_rounds_count(strikes, retaliation_first, side, total as nat);
}

/// How many strikes `side` makes in rounds `0..n`.
proof fn lemma_rounds_count(strikes: (int, int), retaliation_first: bool, side: int, n: nat)
    requires
        0 <= side < 2,
        strikes.0 >= 0,
        strikes.1 >= 0,
    ensures
        rounds(strikes, retaliation_first, n).filter(|x: int| x == side).len() == {
            let own = if side == 0 { strikes.0 } else { strikes.1 };
            if n < own { n as int } else { own }
        },
    decreases n,
{
    let pred = |x: int| x == side;
    if n == 0 {
        assert(rounds(strikes, retaliation_first, 0).filter(pred) =~= Seq::<int>::empty());
    } else {
        lemma_rounds_count(strikes, retaliation_first, side, (n - 1) as nat);
        lemma_round_count(strikes, retaliation_first, n - 1, side);
        Seq::filter_distributes_over_add(
            rounds(strikes, retaliation_first, (n - 1) as nat),
            round_sides(strikes, retaliation_first, n - 1),
            pred,
        );
    }
}
} // verus!
