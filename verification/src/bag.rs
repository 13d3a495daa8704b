use vstd::prelude::*;
use crate::piece::PieceKind;

verus! {

/// Every kind, once each, in the order a fresh bag holds them.
pub open spec fn all_kinds() -> Seq<PieceKind> {
    seq![PieceKind::I, PieceKind::O, PieceKind::T, PieceKind::S, PieceKind::Z, PieceKind::L, PieceKind::J]
}

/// The "7-bag" randomizer: the kinds still to be dealt in the current round.
/// A round deals each of the seven kinds once, in random order; then the bag
/// is filled again.
pub struct PieceBag {
    pub remaining: Vec<PieceKind>,
}

/// The kinds that taking the spots `picks` one after the other deals out of
/// `bag` (each spot counted in what is left at that time).
pub open spec fn dealt(bag: Seq<PieceKind>, picks: Seq<int>) -> Seq<PieceKind>
    decreases picks.len(),
{
    if picks.len() == 0 || !(0 <= picks[0] < bag.len()) {
        Seq::empty()
    } else {
        seq![bag[picks[0]]] + dealt(bag.remove(picks[0]), picks.drop_first())
    }
}

/// What is left of `bag` after taking the spots `picks` one after the other.
pub open spec fn left_after(bag: Seq<PieceKind>, picks: Seq<int>) -> Seq<PieceKind>
    decreases picks.len(),
{
    if picks.len() == 0 || !(0 <= picks[0] < bag.len()) {
        bag
    } else {
        left_after(bag.remove(picks[0]), picks.drop_first())
    }
}

/// Every spot in `picks` lies inside what is left of the bag when it is taken.
pub open spec fn valid_picks(bag: Seq<PieceKind>, picks: Seq<int>) -> bool
    decreases picks.len(),
{
    picks.len() == 0 || (0 <= picks[0] < bag.len() && valid_picks(bag.remove(picks[0]), picks.drop_first()))
}

/// What a draw takes from: the bag, or a fresh full bag when it is empty.
pub open spec fn refilled(bag: Seq<PieceKind>) -> Seq<PieceKind> {
    if bag.len() == 0 { all_kinds() } else { bag }
}

/// One draw: `kind` was taken from spot `i` of the (refilled) bag `before`,
/// leaving `after`.
pub open spec fn draw_step(before: Seq<PieceKind>, after: Seq<PieceKind>, kind: PieceKind) -> bool {
    exists|i: int|
        0 <= i < refilled(before).len() && kind == refilled(before)[i] && after == #[trigger] refilled(before).remove(i)
}

/// `bags[u + 1]` comes from `bags[u]` by one draw dealing `kinds[u]`, for
/// each of the first `n` draws.
pub open spec fn draw_chain(bags: Seq<Seq<PieceKind>>, kinds: Seq<PieceKind>, n: int) -> bool
    decreases n,
{
    if n <= 0 {
        true
    } else {
        draw_chain(bags, kinds, n - 1) && draw_step(bags[n - 1], bags[n], kinds[n - 1])
    }
}

/// `fastrand::usize(0..n)`: a uniformly random index below `n`.
/// Stated: the result is below `n`. It depends on the thread's random state,
/// so nothing more is claimed of it.
#[verifier::external_body]
fn random_below(n: usize) -> (r: usize)
    requires
        n > 0,
    ensures
        r < n,
{
    fastrand::usize(0..n)
}

impl PieceBag {
    /// No kind is held twice, and a bag holds at most one round.
    pub open spec fn wf(&self) -> bool {
        &&& self.remaining@.no_duplicates()
        &&& self.remaining@.len() <= 7
    }

    /// A full bag: every kind once.
    pub fn new() -> (bag: Self)
        ensures
            bag.remaining@ == all_kinds(),
            bag.wf(),
    {
        let mut remaining: Vec<PieceKind> = Vec::new();
        remaining.push(PieceKind::I);
        remaining.push(PieceKind::O);
        remaining.push(PieceKind::T);
        remaining.push(PieceKind::S);
        remaining.push(PieceKind::Z);
        remaining.push(PieceKind::L);
        remaining.push(PieceKind::J);
        assert(remaining@ =~= all_kinds());
        PieceBag { remaining }
    }

    /// Takes the kind at spot `index` out of the bag; the others keep their order.
    pub fn take(&mut self, index: usize) -> (kind: PieceKind)
        requires
            old(self).wf(),
            index < old(self).remaining@.len(),
        ensures
            final(self).wf(),
            kind == old(self).remaining@[index as int],
            final(self).remaining@ == old(self).remaining@.remove(index as int),
            !final(self).remaining@.contains(kind),
    {
        let kind = self.remaining.remove(index);
        proof {
            lemma_remove_keeps_distinct(old(self).remaining@, index as int);
        }
        kind
    }

    /// Deals the next kind: fills the bag when it is empty, then takes a kind
    /// at a random spot.
    pub fn draw(&mut self) -> (kind: PieceKind)
        requires
            old(self).wf(),
        ensures
            final(self).wf(),
            draw_step(old(self).remaining@, final(self).remaining@, kind),
    {
        if self.remaining.len() == 0 {
            *self = PieceBag::new();
        }
        let i = random_below(self.remaining.len());
        let kind = self.take(i);
        assert(final(self).remaining@ == refilled(old(self).remaining@).remove(i as int));
        kind
    }
}

/// Removing one spot of a sequence without repeats leaves a sequence without
/// repeats that no longer holds the removed element, and holds every other one.
pub proof fn lemma_remove_keeps_distinct(s: Seq<PieceKind>, i: int)
    requires
        s.no_duplicates(),
        0 <= i < s.len(),
    ensures
        s.remove(i).no_duplicates(),
        !s.remove(i).contains(s[i]),
        forall|k: PieceKind| #[trigger] s.contains(k) <==> (k == s[i] || s.remove(i).contains(k)),
{
    let t = s.remove(i);
    assert forall|a: int, b: int| 0 <= a < t.len() && 0 <= b < t.len() && a != b implies t[a] != t[b] by {
        let sa = if a < i { a } else { a + 1 };
        let sb = if b < i { b } else { b + 1 };
        assert(t[a] == s[sa]);
        assert(t[b] == s[sb]);
    }
    if t.contains(s[i]) {
        let a = choose|a: int| 0 <= a < t.len() && t[a] == s[i];
        let sa = if a < i { a } else { a + 1 };
        assert(t[a] == s[sa]);
    }
    assert forall|k: PieceKind| #[trigger] s.contains(k) <==> (k == s[i] || t.contains(k)) by {
        if s.contains(k) && k != s[i] {
            let a = choose|a: int| 0 <= a < s.len() && s[a] == k;
            let ta = if a < i { a } else { a - 1 };
            assert(t[ta] == k);
        }
        if t.contains(k) {
            let a = choose|a: int| 0 <= a < t.len() && t[a] == k;
            let sa = if a < i { a } else { a + 1 };
            assert(s[sa] == k);
        }
        if k == s[i] {
            assert(s[i] == k);
        }
    }
}

/// Dealing from a bag without repeats deals no kind twice, and the kinds
/// dealt together with those left are exactly the kinds of the bag, none
/// both dealt and left.
pub proof fn lemma_dealing_partitions_bag(bag: Seq<PieceKind>, picks: Seq<int>)
    requires
        bag.no_duplicates(),
        valid_picks(bag, picks),
    ensures
        dealt(bag, picks).no_duplicates(),
        left_after(bag, picks).no_duplicates(),
        dealt(bag, picks).len() + left_after(bag, picks).len() == bag.len(),
        forall|k: PieceKind| #[trigger] bag.contains(k) <==> (dealt(bag, picks).contains(k) || left_after(bag, picks).contains(k)),
        forall|k: PieceKind| !(#[trigger] dealt(bag, picks).contains(k) && left_after(bag, picks).contains(k)),
    decreases picks.len(),
{
    if picks.len() == 0 {
        assert(dealt(bag, picks) =~= Seq::<PieceKind>::empty());
    } else {
        let i = picks[0];
        let rest = bag.remove(i);
        lemma_remove_keeps_distinct(bag, i);
        lemma_dealing_partitions_bag(rest, picks.drop_first());
        let d = dealt(rest, picks.drop_first());
        let full = seq![bag[i]] + d;
        assert(dealt(bag, picks) == full);
        assert forall|k: PieceKind| #[trigger] full.contains(k) <==> (k == bag[i] || d.contains(k)) by {
            if full.contains(k) && k != bag[i] {
                let a = choose|a: int| 0 <= a < full.len() && full[a] == k;
                assert(d[a - 1] == k);
            }
            if d.contains(k) {
                let a = choose|a: int| 0 <= a < d.len() && d[a] == k;
                assert(full[a + 1] == k);
            }
            if k == bag[i] {
                assert(full[0] == k);
            }
        }
        assert forall|a: int, b: int| 0 <= a < full.len() && 0 <= b < full.len() && a != b implies full[a] != full[b] by {
            if a == 0 && b > 0 {
                assert(full[b] == d[b - 1]);
                assert(d.contains(d[b - 1]));
            } else if b == 0 && a > 0 {
                assert(full[a] == d[a - 1]);
                assert(d.contains(d[a - 1]));
            } else if a > 0 && b > 0 {
                assert(full[a] == d[a - 1]);
                assert(full[b] == d[b - 1]);
            }
        }
    }
}

/// A full round: dealing seven times from a full bag deals every kind
/// exactly once.
pub proof fn lemma_full_round_deals_every_kind(picks: Seq<int>)
    requires
        picks.len() == 7,
        valid_picks(all_kinds(), picks),
    ensures
        dealt(all_kinds(), picks).len() == 7,
        dealt(all_kinds(), picks).no_duplicates(),
        forall|k: PieceKind| #[trigger] dealt(all_kinds(), picks).contains(k),
{
    let bag = all_kinds();
    assert(bag.no_duplicates()) by {
        assert forall|a: int, b: int| 0 <= a < 7 && 0 <= b < 7 && a != b implies bag[a] != bag[b] by {}
    }
    lemma_dealing_partitions_bag(bag, picks);
    lemma_dealt_len(bag, picks);
    assert(left_after(bag, picks).len() == 0);
    assert forall|k: PieceKind| #[trigger] dealt(bag, picks).contains(k) by {
        let idx: int = match k {
            PieceKind::I => 0,
            PieceKind::O => 1,
            PieceKind::T => 2,
            PieceKind::S => 3,
            PieceKind::Z => 4,
            PieceKind::L => 5,
            PieceKind::J => 6,
        };
        assert(bag[idx] == k);
        assert(bag.contains(k));
        if left_after(bag, picks).contains(k) {
            let a = choose|a: int| 0 <= a < left_after(bag, picks).len() && left_after(bag, picks)[a] == k;
        }
    }
}

/// Valid picks deal one kind per pick.
pub proof fn lemma_dealt_len(bag: Seq<PieceKind>, picks: Seq<int>)
    requires
        valid_picks(bag, picks),
    ensures
        dealt(bag, picks).len() == picks.len(),
    decreases picks.len(),
{
    if picks.len() > 0 {
        lemma_dealt_len(bag.remove(picks[0]), picks.drop_first());
    }
}

/// Every kind is in a fresh bag, and a fresh bag holds no kind twice.
pub proof fn lemma_all_kinds()
    ensures
        all_kinds().no_duplicates(),
        forall|k: PieceKind| #[trigger] all_kinds().contains(k),
{
    let bag = all_kinds();
    assert forall|a: int, b: int| 0 <= a < 7 && 0 <= b < 7 && a != b implies bag[a] != bag[b] by {}
    assert forall|k: PieceKind| #[trigger] bag.contains(k) by {
        let idx: int = match k {
            PieceKind::I => 0,
            PieceKind::O => 1,
            PieceKind::T => 2,
            PieceKind::S => 3,
            PieceKind::Z => 4,
            PieceKind::L => 5,
            PieceKind::J => 6,
        };
        assert(bag[idx] == k);
    }
}

/// One draw step from `src` keeps the split into dealt and left: the dealt
/// kinds `prev` plus the drawn one hold no kind twice, nor does what is left,
/// and together they still hold every kind, none in both.
pub proof fn lemma_draw_keeps_split(src: Seq<PieceKind>, i: int, prev: Seq<PieceKind>)
    requires
        src.no_duplicates(),
        0 <= i < src.len(),
        prev.no_duplicates(),
        forall|k: PieceKind| #[trigger] prev.contains(k) || src.contains(k),
        forall|k: PieceKind| !(#[trigger] prev.contains(k) && src.contains(k)),
    ensures
        prev.push(src[i]).no_duplicates(),
        src.remove(i).no_duplicates(),
        src.remove(i).len() == src.len() - 1,
        forall|k: PieceKind| #[trigger] prev.push(src[i]).contains(k) || src.remove(i).contains(k),
        forall|k: PieceKind| !(#[trigger] prev.push(src[i]).contains(k) && src.remove(i).contains(k)),
{
    lemma_remove_keeps_distinct(src, i);
    let now = prev.push(src[i]);
    let rest = src.remove(i);
    assert forall|k: PieceKind| #[trigger] now.contains(k) <==> (prev.contains(k) || k == src[i]) by {
        if now.contains(k) {
            let a = choose|a: int| 0 <= a < now.len() && now[a] == k;
            if a < prev.len() {
                assert(prev[a] == k);
            }
        }
        if prev.contains(k) {
            let a = choose|a: int| 0 <= a < prev.len() && prev[a] == k;
            assert(now[a] == k);
        }
        if k == src[i] {
            assert(now[prev.len() as int] == k);
        }
    }
    assert(src.contains(src[i]));
    assert forall|a: int, b: int| 0 <= a < now.len() && 0 <= b < now.len() && a != b implies now[a] != now[b] by {
        if a == prev.len() && b < prev.len() {
            assert(prev[b] == now[b]);
            assert(prev.contains(now[b]));
        } else if b == prev.len() && a < prev.len() {
            assert(prev[a] == now[a]);
            assert(prev.contains(now[a]));
        } else {
            assert(prev[a] == now[a]);
            assert(prev[b] == now[b]);
        }
    }
    assert forall|k: PieceKind| #[trigger] now.contains(k) || rest.contains(k) by {
        assert(prev.contains(k) || src.contains(k));
    }
    assert forall|k: PieceKind| !(#[trigger] now.contains(k) && rest.contains(k)) by {
        assert(!(prev.contains(k) && src.contains(k)));
    }
}

/// The first `t` (up to six) of seven successive draws from a full or empty bag: they
/// deal no kind twice, what is left holds no kind twice and none of the
/// dealt ones, and together dealt and left hold every kind.
pub proof fn lemma_draws_so_far(bags: Seq<Seq<PieceKind>>, kinds: Seq<PieceKind>, t: int)
    requires
        bags.len() == 8,
        kinds.len() == 7,
        bags[0] == all_kinds() || bags[0].len() == 0,
        draw_chain(bags, kinds, t),
        0 <= t <= 6,
    ensures
        t == 0 ==> refilled(bags[0]) == all_kinds(),
        t > 0 ==> bags[t].len() == 7 - t,
        t > 0 ==> bags[t].no_duplicates(),
        kinds.take(t).no_duplicates(),
        forall|k: PieceKind| #[trigger] kinds.take(t).contains(k) || refilled(bags[t]).contains(k),
        forall|k: PieceKind| !(#[trigger] kinds.take(t).contains(k) && refilled(bags[t]).contains(k)),
    decreases t,
{
    if t == 0 {
        lemma_all_kinds();
        assert(kinds.take(0) =~= Seq::<PieceKind>::empty());
        assert(refilled(bags[0]) == all_kinds());
    } else {
        lemma_draws_so_far(bags, kinds, t - 1);
        let src = refilled(bags[t - 1]);
        assert(draw_step(bags[t - 1], bags[t], kinds[t - 1]));
        let i = choose|i: int| 0 <= i < src.len() && kinds[t - 1] == src[i] && bags[t] == #[trigger] src.remove(i);
        if t == 1 {
            lemma_all_kinds();
        }
        lemma_draw_keeps_split(src, i, kinds.take(t - 1));
        assert(kinds.take(t) =~= kinds.take(t - 1).push(src[i]));
        assert(refilled(bags[t]) == bags[t]);
    }
}

/// The 7-bag promise: seven successive draws starting from a full or an
/// empty bag deal every kind exactly once, and leave the bag empty.
pub proof fn lemma_seven_draws_deal_every_kind(bags: Seq<Seq<PieceKind>>, kinds: Seq<PieceKind>)
    requires
        bags.len() == 8,
        kinds.len() == 7,
        bags[0] == all_kinds() || bags[0].len() == 0,
        draw_chain(bags, kinds, 7),
    ensures
        kinds.no_duplicates(),
        forall|k: PieceKind| #[trigger] kinds.contains(k),
        bags[7].len() == 0,
{
    lemma_draws_so_far(bags, kinds, 6);
    let src = refilled(bags[6]);
    assert(draw_step(bags[6], bags[7], kinds[6]));
    let i = choose|i: int| 0 <= i < src.len() && kinds[6] == src[i] && bags[7] == #[trigger] src.remove(i);
    lemma_draw_keeps_split(src, i, kinds.take(6));
    assert(kinds.take(6).push(src[i]) =~= kinds);
    assert forall|k: PieceKind| #[trigger] kinds.contains(k) by {
        assert(kinds.contains(k) || bags[7].contains(k));
        if bags[7].contains(k) {
            let a = choose|a: int| 0 <= a < bags[7].len() && bags[7][a] == k;
        }
    }
}

} // verus!
