//! Exact covers of boolean vectors by Knuth's algorithm X on plain
//! vectors: pick the element in the fewest sets, branch on each set that
//! holds it, drop what that set covers and recurse on the rest.
use vstd::prelude::*;
use crate::bool_cover_laws::{uniform, width_of, cover_from, apart, exact, listed, lemma_vector_family, lemma_found};

verus! {

pub type Element = usize;

pub type Label = usize;

/// A labelled set owning its membership vector.
#[derive(Clone, PartialEq, Eq, Debug)]
pub struct OwnedSet(pub Label, pub Vec<bool>);

/// A labelled set borrowing its membership vector.
#[derive(Clone, Copy, PartialEq, Eq, Debug)]
pub struct BoolSet<'a>(pub Label, pub &'a [bool]);

/// Membership of `elem` in `arr`: false past its end.
pub open spec fn member(arr: Seq<bool>, elem: int) -> bool {
    0 <= elem < arr.len() && arr[elem]
}

/// Some listed element is a member of `arr`.
pub open spec fn any_member(arr: Seq<bool>, elements: Seq<usize>) -> bool {
    exists|k: int| 0 <= k < elements.len() && member(arr, elements[k] as int)
}

/// `arr` without the positions that are members of `other`.
pub open spec fn difference_of(arr: Seq<bool>, other: Seq<bool>) -> Seq<bool>
    decreases arr.len(),
{
    if arr.len() == 0 {
        Seq::empty()
    } else {
        let rest = difference_of(arr.drop_last(), other);
        if member(other, arr.len() - 1) { rest } else { rest.push(arr.last()) }
    }
}

/// The positions that are members of `arr`, in ascending order.
pub open spec fn elements_of(arr: Seq<bool>) -> Seq<usize>
    decreases arr.len(),
{
    if arr.len() == 0 {
        Seq::empty()
    } else {
        let rest = elements_of(arr.drop_last());
        if arr.last() { rest.push((arr.len() - 1) as usize) } else { rest }
    }
}

fn get_bool(arr: &[bool], elem: Element) -> (r: bool)
    ensures
        r == member(arr@, elem as int),
{
    if elem < arr.len() {
        arr[elem]
    } else {
        false
    }
}

fn contains_any(arr: &[bool], elements: &[Element]) -> (r: bool)
    ensures
        r == any_member(arr@, elements@),
{
    let mut k: usize = 0;
    while k < elements.len()
        invariant
            k <= elements@.len(),
            forall|j: int| 0 <= j < k ==> !member(arr@, #[trigger] elements@[j] as int),
        decreases elements@.len() - k,
    {
        if get_bool(arr, elements[k]) {
            return true;
        }
        k += 1;
    }
    false
}

impl OwnedSet {
    pub fn arr(&self) -> (r: &Vec<bool>)
        ensures
            r@ == self.1@,
    {
        &self.1
    }

    pub fn label(&self) -> (r: Label)
        ensures
            r == self.0,
    {
        self.0
    }

    /// Some of `elements` is a member of the set.
    pub fn contains_any(&self, elements: &[Element]) -> (r: bool)
        ensures
            r == any_member(self.1@, elements@),
    {
        contains_any(self.1.as_slice(), elements)
    }

    /// `elem` is a member of the set.
    pub fn get_bool(&self, elem: Element) -> (r: bool)
        ensures
            r == member(self.1@, elem as int),
    {
        get_bool(self.1.as_slice(), elem)
    }
}

impl<'a> BoolSet<'a> {
    pub fn arr(&self) -> (r: &'a [bool])
        ensures
            r@ == self.1@,
    {
        self.1
    }

    pub fn label(&self) -> (r: Label)
        ensures
            r == self.0,
    {
        self.0
    }

    /// The set borrowing the vector of `owned`.
    pub fn from_owned(owned: &'a OwnedSet) -> (r: BoolSet<'a>)
        ensures
            r.0 == owned.0,
            r.1@ == owned.1@,
    {
        BoolSet(owned.0, owned.1.as_slice())
    }

    /// The set with the positions that are members of `other` dropped.
    pub fn difference(&self, other: BoolSet) -> (r: OwnedSet)
        ensures
            r.0 == self.0,
            r.1@ == difference_of(self.1@, other.1@),
    {
        let mut arr: Vec<bool> = Vec::new();
        let mut i: usize = 0;
        while i < self.1.len()
            invariant
                i <= self.1@.len(),
                arr@ == difference_of(self.1@.take(i as int), other.1@),
            decreases self.1@.len() - i,
        {
            assert(self.1@.take(i + 1).drop_last() == self.1@.take(i as int));
            if !get_bool(other.1, i) {
                arr.push(self.1[i]);
            }
            i += 1;
        }
        assert(self.1@.take(i as int) == self.1@);
        OwnedSet(self.0, arr)
    }

    /// Some of `elements` is a member of the set.
    pub fn contains_any(&self, elements: &[Element]) -> (r: bool)
        ensures
            r == any_member(self.1@, elements@),
    {
        contains_any(self.1, elements)
    }

    /// `elem` is a member of the set.
    pub fn get_bool(&self, elem: Element) -> (r: bool)
        ensures
            r == member(self.1@, elem as int),
    {
        get_bool(self.1, elem)
    }
}

/// The positions that are members of `set`, in ascending order.
pub fn set_elements(set: BoolSet) -> (r: Vec<Element>)
    ensures
        r@ == elements_of(set.1@),
{
    let mut r: Vec<Element> = Vec::new();
    let mut i: usize = 0;
    while i < set.1.len()
        invariant
            i <= set.1@.len(),
            r@ == elements_of(set.1@.take(i as int)),
        decreases set.1@.len() - i,
    {
        assert(set.1@.take(i + 1).drop_last() == set.1@.take(i as int));
        if set.1[i] {
            r.push(i);
        }
        i += 1;
    }
    assert(set.1@.take(i as int) == set.1@);
    r
}

/// The sets in which `elem` is a member, in order.
pub open spec fn including(sets: Seq<BoolSet>, elem: int) -> Seq<BoolSet>
    decreases sets.len(),
{
    if sets.len() == 0 {
        Seq::empty()
    } else {
        let rest = including(sets.drop_last(), elem);
        if member(sets.last().1@, elem) { rest.push(sets.last()) } else { rest }
    }
}

/// The sets in which `elem` is a member, in order.
pub fn including_sets<'a>(sets: &[BoolSet<'a>], elem: Element) -> (r: Vec<BoolSet<'a>>)
    ensures
        r@ == including(sets@, elem as int),
{
    let mut r: Vec<BoolSet<'a>> = Vec::new();
    let mut i: usize = 0;
    while i < sets.len()
        invariant
            i <= sets@.len(),
            r@ == including(sets@.take(i as int), elem as int),
        decreases sets@.len() - i,
    {
        assert(sets@.take(i + 1).drop_last() == sets@.take(i as int));
        if sets[i].get_bool(elem) {
            r.push(sets[i]);
        }
        i += 1;
    }
    assert(sets@.take(i as int) == sets@);
    r
}

/// The number of sets in which `elem` is a member.
pub open spec fn occurrences(sets: Seq<BoolSet>, elem: int) -> nat
    decreases sets.len(),
{
    if sets.len() == 0 {
        0
    } else {
        occurrences(sets.drop_last(), elem) + if member(sets.last().1@, elem) { 1nat } else { 0nat }
    }
}

proof fn lemma_occurrences_bound(sets: Seq<BoolSet>, elem: int)
    ensures
        occurrences(sets, elem) <= sets.len(),
    decreases sets.len(),
{
    if sets.len() > 0 {
        lemma_occurrences_bound(sets.drop_last(), elem);
    }
}

/// The number of sets in which `elem` is a member.
pub fn count_occurences(sets: &[BoolSet], elem: Element) -> (r: usize)
    ensures
        r == occurrences(sets@, elem as int),
{
    let mut r: usize = 0;
    let mut i: usize = 0;
    while i < sets.len()
        invariant
            i <= sets@.len(),
            r == occurrences(sets@.take(i as int), elem as int),
        decreases sets@.len() - i,
    {
        assert(sets@.take(i + 1).drop_last() == sets@.take(i as int));
        proof {
            lemma_occurrences_bound(sets@.take(i + 1), elem as int);
        }
        if sets[i].get_bool(elem) {
            r += 1;
        }
        i += 1;
    }
    assert(sets@.take(i as int) == sets@);
    r
}

/// The length of the longest membership vector, or 0.
pub open spec fn width(sets: Seq<BoolSet>) -> nat
    decreases sets.len(),
{
    if sets.len() == 0 {
        0
    } else {
        let w = width(sets.drop_last());
        if w > sets.last().1@.len() { w } else { sets.last().1@.len() }
    }
}

/// The length of the longest membership vector, or 0.
pub fn count_elements(sets: &[BoolSet]) -> (r: usize)
    ensures
        r == width(sets@),
{
    let mut r: usize = 0;
    let mut i: usize = 0;
    while i < sets.len()
        invariant
            i <= sets@.len(),
            r == width(sets@.take(i as int)),
        decreases sets@.len() - i,
    {
        assert(sets@.take(i + 1).drop_last() == sets@.take(i as int));
        if sets[i].1.len() > r {
            r = sets[i].1.len();
        }
        i += 1;
    }
    assert(sets@.take(i as int) == sets@);
    r
}

/// The element, among `0..width`, that is a member of the fewest sets;
/// the first such one.  `None` when there is no element.
pub fn least_sets_element(sets: &[BoolSet]) -> (r: Option<Element>)
    ensures
        r is None <==> width(sets@) == 0,
        r is Some ==> {
            let e = r->0 as int;
            &&& e < width(sets@)
            &&& forall|x: int| 0 <= x < width(sets@) ==> occurrences(sets@, e) <= #[trigger] occurrences(sets@, x)
            &&& forall|x: int| 0 <= x < e ==> occurrences(sets@, e) < #[trigger] occurrences(sets@, x)
        },
{
    let n = count_elements(sets);
    if n == 0 {
        return None;
    }
    let mut best: usize = 0;
    let mut best_count = count_occurences(sets, 0);
    let mut elem: usize = 1;
    while elem < n
        invariant
            n == width(sets@),
            best < elem <= n,
            best_count == occurrences(sets@, best as int),
            forall|x: int| 0 <= x < elem ==> best_count <= #[trigger] occurrences(sets@, x),
            forall|x: int| 0 <= x < best ==> best_count < #[trigger] occurrences(sets@, x),
        decreases n - elem,
    {
        let c = count_occurences(sets, elem);
        if c < best_count {
            best = elem;
            best_count = c;
        }
        elem += 1;
    }
    Some(best)
}

/// The labels of the sets, in order.
pub fn labels(sets: &[BoolSet]) -> (r: Vec<Label>)
    ensures
        r@ == sets@.map_values(|s: BoolSet| s.0),
{
    let mut r: Vec<Label> = Vec::new();
    let mut i: usize = 0;
    while i < sets.len()
        invariant
            i <= sets@.len(),
            r@ == sets@.take(i as int).map_values(|s: BoolSet| s.0),
        decreases sets@.len() - i,
    {
        r.push(sets[i].0);
        i += 1;
        assert(r@ =~= sets@.take(i as int).map_values(|s: BoolSet| s.0));
    }
    assert(sets@.take(i as int) == sets@);
    r
}

/// The sets whose label is listed, in order.
pub open spec fn with_labels<'a>(sets: Seq<BoolSet<'a>>, labels: Seq<Label>) -> Seq<BoolSet<'a>>
    decreases sets.len(),
{
    if sets.len() == 0 {
        Seq::empty()
    } else {
        let rest = with_labels(sets.drop_last(), labels);
        if labels.contains(sets.last().0) { rest.push(sets.last()) } else { rest }
    }
}

/// The sets whose label is listed, in order.
pub fn labeled_sets<'a>(sets: &[BoolSet<'a>], labels: &[Label]) -> (r: Vec<BoolSet<'a>>)
    ensures
        r@ == with_labels(sets@, labels@),
{
    let mut r: Vec<BoolSet<'a>> = Vec::new();
    let mut i: usize = 0;
    while i < sets.len()
        invariant
            i <= sets@.len(),
            r@ == with_labels(sets@.take(i as int), labels@),
        decreases sets@.len() - i,
    {
        assert(sets@.take(i + 1).drop_last() == sets@.take(i as int));
        let mut found = false;
        let mut k: usize = 0;
        while k < labels.len()
            invariant
                k <= labels@.len(),
                i < sets@.len(),
                found <==> exists|j: int| 0 <= j < k && labels@[j] == sets@[i as int].0,
            decreases labels@.len() - k,
        {
            if labels[k] == sets[i].0 {
                found = true;
            }
            k += 1;
        }
        if found {
            r.push(sets[i]);
        }
        i += 1;
    }
    assert(sets@.take(i as int) == sets@);
    r
}

/// What an owned set holds: its label and its membership vector.
pub open spec fn owned_view(o: OwnedSet) -> (Label, Seq<bool>) {
    (o.0, o.1@)
}

/// The positions `0..n`.
pub open spec fn upto(n: nat) -> Seq<usize> {
    Seq::new(n, |k: int| k as usize)
}

/// What is left after choosing `c`: the sets that share no element with
/// `c`, with `c`'s positions dropped, keeping only those that still have
/// a member among the first `c.len()` positions (or carry `c`'s label).
pub open spec fn cover_of(sets: Seq<BoolSet>, c: BoolSet) -> Seq<(Label, Seq<bool>)>
    decreases sets.len(),
{
    if sets.len() == 0 {
        Seq::empty()
    } else {
        let rest = cover_of(sets.drop_last(), c);
        let s = sets.last();
        let d = difference_of(s.1@, c.1@);
        if !any_member(s.1@, elements_of(c.1@)) && (s.0 == c.0 || any_member(d, upto(c.1@.len()))) {
            rest.push((s.0, d))
        } else {
            rest
        }
    }
}

pub(crate) proof fn lemma_elements_of(arr: Seq<bool>)
    requires
        arr.len() <= usize::MAX,
    ensures
        forall|k: int| 0 <= k < elements_of(arr).len() ==> member(arr, #[trigger] elements_of(arr)[k] as int),
        forall|i: int| 0 <= i < arr.len() && arr[i] ==> elements_of(arr).contains(i as usize),
    decreases arr.len(),
{
    if arr.len() > 0 {
        lemma_elements_of(arr.drop_last());
        let rest = elements_of(arr.drop_last());
        assert forall|k: int| 0 <= k < elements_of(arr).len() implies member(arr, #[trigger] elements_of(arr)[k] as int) by {
            if k < rest.len() {
                assert(elements_of(arr)[k] == rest[k]);
                assert(member(arr.drop_last(), rest[k] as int));
                let x = rest[k] as int;
                assert(arr.drop_last()[x] == arr[x]);
            }
        }
        assert forall|i: int| 0 <= i < arr.len() && arr[i] implies elements_of(arr).contains(i as usize) by {
            if i < arr.len() - 1 {
                assert(arr.drop_last()[i] == arr[i]);
                let k = choose|k: int| 0 <= k < rest.len() && rest[k] == i as usize;
                assert(elements_of(arr)[k] == i as usize);
            } else {
                assert(elements_of(arr)[elements_of(arr).len() - 1] == i as usize);
            }
        }
    }
}

/// A set with a member among its own positions is left out of what
/// covering it leaves, so fewer sets remain.
proof fn lemma_cover_shrinks(sets: Seq<BoolSet>, c: BoolSet, e: int)
    requires
        sets.contains(c),
        c.1@.len() <= usize::MAX,
        member(c.1@, e),
    ensures
        cover_of(sets, c).len() < sets.len(),
    decreases sets.len(),
{
    lemma_elements_of(c.1@);
    let k = choose|k: int| 0 <= k < elements_of(c.1@).len() && elements_of(c.1@)[k] == e as usize;
    assert(any_member(c.1@, elements_of(c.1@)));
    if sets.len() > 0 {
        if sets.last() == c {
            lemma_cover_len(sets.drop_last(), c);
        } else {
            let j = choose|j: int| 0 <= j < sets.len() && sets[j] == c;
            assert(sets.drop_last()[j] == c);
            lemma_cover_shrinks(sets.drop_last(), c, e);
        }
    }
}

proof fn lemma_cover_len(sets: Seq<BoolSet>, c: BoolSet)
    ensures
        cover_of(sets, c).len() <= sets.len(),
    decreases sets.len(),
{
    if sets.len() > 0 {
        lemma_cover_len(sets.drop_last(), c);
    }
}

/// The sets left after choosing `cover_set`: see `cover_of`.
pub fn cover<'a>(sets: &[BoolSet<'a>], cover_set: BoolSet<'a>) -> (r: Vec<OwnedSet>)
    ensures
        r@.map_values(|o: OwnedSet| owned_view(o)) == cover_of(sets@, cover_set),
{
    let cover_elements = set_elements(cover_set);
    let mut all_elements: Vec<Element> = Vec::new();
    let mut k: usize = 0;
    while k < cover_set.1.len()
        invariant
            k <= cover_set.1@.len(),
            all_elements@ == upto(k as nat),
        decreases cover_set.1@.len() - k,
    {
        all_elements.push(k);
        k += 1;
        assert(all_elements@ =~= upto(k as nat));
    }
    let mut r: Vec<OwnedSet> = Vec::new();
    let mut i: usize = 0;
    while i < sets.len()
        invariant
            i <= sets@.len(),
            cover_elements@ == elements_of(cover_set.1@),
            all_elements@ == upto(cover_set.1@.len()),
            r@.map_values(|o: OwnedSet| owned_view(o)) == cover_of(sets@.take(i as int), cover_set),
        decreases sets@.len() - i,
    {
        assert(sets@.take(i + 1).drop_last() == sets@.take(i as int));
        let set = sets[i];
        if !set.contains_any(cover_elements.as_slice()) {
            let d = set.difference(cover_set);
            if d.label() == cover_set.label() || d.contains_any(all_elements.as_slice()) {
                r.push(d);
            }
        }
        i += 1;
        assert(r@.map_values(|o: OwnedSet| owned_view(o)) =~= cover_of(sets@.take(i as int), cover_set));
    }
    assert(sets@.take(i as int) == sets@);
    r
}

/// Every membership vector fits the machine's lengths.
pub open spec fn fits(sets: Seq<BoolSet>) -> bool {
    forall|i: int| 0 <= i < sets.len() ==> (#[trigger] sets[i]).1@.len() <= usize::MAX
}

/// Every set of every cover is one of `sets`.
pub open spec fn drawn_from<'a>(covers: Seq<Vec<BoolSet<'a>>>, sets: Seq<BoolSet<'a>>) -> bool {
    forall|c: int, k: int| 0 <= c < covers.len() && 0 <= k < covers[c]@.len() ==> sets.contains(#[trigger] covers[c]@[k])
}

proof fn lemma_with_labels<'a>(sets: Seq<BoolSet<'a>>, labels: Seq<Label>)
    ensures
        forall|k: int| 0 <= k < with_labels(sets, labels).len() ==> sets.contains(#[trigger] with_labels(sets, labels)[k]),
    decreases sets.len(),
{
    if sets.len() > 0 {
        lemma_with_labels(sets.drop_last(), labels);
        let rest = with_labels(sets.drop_last(), labels);
        assert forall|k: int| 0 <= k < with_labels(sets, labels).len() implies sets.contains(#[trigger] with_labels(sets, labels)[k]) by {
            if k < rest.len() {
                assert(with_labels(sets, labels)[k] == rest[k]);
                let j = choose|j: int| 0 <= j < sets.drop_last().len() && sets.drop_last()[j] == rest[k];
                assert(sets[j] == rest[k]);
            } else {
                assert(sets[sets.len() - 1] == with_labels(sets, labels)[k]);
            }
        }
    }
}

proof fn lemma_including<'a>(sets: Seq<BoolSet<'a>>, elem: int)
    ensures
        forall|k: int| 0 <= k < including(sets, elem).len() ==> sets.contains(#[trigger] including(sets, elem)[k])
            && member(including(sets, elem)[k].1@, elem),
    decreases sets.len(),
{
    if sets.len() > 0 {
        lemma_including(sets.drop_last(), elem);
        let rest = including(sets.drop_last(), elem);
        assert forall|k: int| 0 <= k < including(sets, elem).len() implies sets.contains(#[trigger] including(sets, elem)[k])
            && member(including(sets, elem)[k].1@, elem) by {
            if k < rest.len() {
                assert(including(sets, elem)[k] == rest[k]);
                let j = choose|j: int| 0 <= j < sets.drop_last().len() && sets.drop_last()[j] == rest[k];
                assert(sets[j] == rest[k]);
            } else {
                assert(sets[sets.len() - 1] == including(sets, elem)[k]);
            }
        }
    }
}


/// A set as a plain value: its label and its membership vector.
pub type SetView = (Label, Seq<bool>);

/// The plain value of a set.
pub open spec fn bview(s: BoolSet) -> SetView {
    (s.0, s.1@)
}

/// The plain values of sets.
pub open spec fn bviews(sets: Seq<BoolSet>) -> Seq<SetView> {
    sets.map_values(|s: BoolSet| bview(s))
}

/// The length of the longest membership vector, or 0.
pub open spec fn vwidth(sets: Seq<SetView>) -> nat
    decreases sets.len(),
{
    if sets.len() == 0 {
        0
    } else {
        let w = vwidth(sets.drop_last());
        if w > sets.last().1.len() { w } else { sets.last().1.len() }
    }
}

/// The number of sets in which `elem` is a member.
pub open spec fn voccurrences(sets: Seq<SetView>, elem: int) -> nat
    decreases sets.len(),
{
    if sets.len() == 0 {
        0
    } else {
        voccurrences(sets.drop_last(), elem) + if member(sets.last().1, elem) { 1nat } else { 0nat }
    }
}

/// The sets in which `elem` is a member, in order.
pub open spec fn vincluding(sets: Seq<SetView>, elem: int) -> Seq<SetView>
    decreases sets.len(),
{
    if sets.len() == 0 {
        Seq::empty()
    } else {
        let rest = vincluding(sets.drop_last(), elem);
        if member(sets.last().1, elem) { rest.push(sets.last()) } else { rest }
    }
}

/// What is left after choosing `c`: see `cover_of`.
pub open spec fn vcover_of(sets: Seq<SetView>, c: SetView) -> Seq<SetView>
    decreases sets.len(),
{
    if sets.len() == 0 {
        Seq::empty()
    } else {
        let rest = vcover_of(sets.drop_last(), c);
        let s = sets.last();
        let d = difference_of(s.1, c.1);
        if !any_member(s.1, elements_of(c.1)) && (s.0 == c.0 || any_member(d, upto(c.1.len()))) {
            rest.push((s.0, d))
        } else {
            rest
        }
    }
}

/// The sets whose label is listed, in order.
pub open spec fn vwith_labels(sets: Seq<SetView>, labels: Seq<Label>) -> Seq<SetView>
    decreases sets.len(),
{
    if sets.len() == 0 {
        Seq::empty()
    } else {
        let rest = vwith_labels(sets.drop_last(), labels);
        if labels.contains(sets.last().0) { rest.push(sets.last()) } else { rest }
    }
}

/// The element the search branches on: the first among `0..vwidth` that is
/// a member of the fewest sets.
pub open spec fn is_least(sets: Seq<SetView>, e: int) -> bool {
    &&& 0 <= e < vwidth(sets)
    &&& forall|x: int| 0 <= x < vwidth(sets) ==> voccurrences(sets, e) <= #[trigger] voccurrences(sets, x)
    &&& forall|x: int| 0 <= x < e ==> voccurrences(sets, e) < #[trigger] voccurrences(sets, x)
}

/// The element the search branches on, when there is any element.
pub open spec fn least_of(sets: Seq<SetView>) -> int {
    choose|e: int| is_least(sets, e)
}

/// Every position below `w` is a member of `arr`.
pub open spec fn all_members(arr: Seq<bool>, w: int) -> bool {
    forall|e: int| 0 <= e < w ==> member(arr, e)
}

/// The covers the search finds for `sets`, as plain values: with no set
/// there is none; a single set is a cover when all its positions are
/// members; with no element at all the sets themselves are the cover;
/// otherwise the covers found by branching on each set that holds the
/// element in the fewest sets, in order.
pub open spec fn found(sets: Seq<SetView>) -> Seq<Seq<SetView>>
    decreases sets.len(), 2int, 0int,
{
    if sets.len() == 0 {
        Seq::empty()
    } else if sets.len() == 1 {
        if all_members(sets[0].1, sets[0].1.len() as int) { seq![seq![sets[0]]] } else { Seq::empty() }
    } else if vwidth(sets) == 0 {
        seq![sets]
    } else {
        found_each(sets, vincluding(sets, least_of(sets)))
    }
}

/// The covers found by branching on each of `cands`, in order.
pub open spec fn found_each(sets: Seq<SetView>, cands: Seq<SetView>) -> Seq<Seq<SetView>>
    decreases sets.len(), 1int, cands.len(),
{
    if cands.len() == 0 {
        Seq::empty()
    } else {
        found_each(sets, cands.drop_last()) + found_with(sets, cands.last())
    }
}

/// The covers that contain `c`: the covers of what is left after choosing
/// it, each given as the sets of `sets` with its labels, in order, and then
/// `c`.  When nothing is left, `c` finishes a cover exactly when it holds
/// every element.
pub open spec fn found_with(sets: Seq<SetView>, c: SetView) -> Seq<Seq<SetView>>
    decreases sets.len(), 0int, 0int,
{
    let rest = vcover_of(sets, c);
    let subs = if rest.len() == 0 {
        if all_members(c.1, vwidth(sets) as int) { seq![Seq::<SetView>::empty()] } else { Seq::empty() }
    } else if rest.len() < sets.len() {
        found(rest)
    } else {
        Seq::empty()
    };
    subs.map_values(|sub: Seq<SetView>| vwith_labels(sets, sub.map_values(|v: SetView| v.0)).push(c))
}

/// The plain values of the covers.
pub open spec fn cover_views(covers: Seq<Vec<BoolSet>>) -> Seq<Seq<SetView>> {
    covers.map_values(|c: Vec<BoolSet>| bviews(c@))
}

proof fn lemma_vwidth(sets: Seq<BoolSet>)
    ensures
        vwidth(bviews(sets)) == width(sets),
    decreases sets.len(),
{
    if sets.len() > 0 {
        lemma_vwidth(sets.drop_last());
        assert(bviews(sets).drop_last() =~= bviews(sets.drop_last()));
    }
}

proof fn lemma_voccurrences(sets: Seq<BoolSet>, e: int)
    ensures
        voccurrences(bviews(sets), e) == occurrences(sets, e),
    decreases sets.len(),
{
    if sets.len() > 0 {
        lemma_voccurrences(sets.drop_last(), e);
        assert(bviews(sets).drop_last() =~= bviews(sets.drop_last()));
    }
}

proof fn lemma_vincluding(sets: Seq<BoolSet>, e: int)
    ensures
        vincluding(bviews(sets), e) == bviews(including(sets, e)),
    decreases sets.len(),
{
    if sets.len() > 0 {
        lemma_vincluding(sets.drop_last(), e);
        assert(bviews(sets).drop_last() =~= bviews(sets.drop_last()));
        assert(bviews(including(sets.drop_last(), e).push(sets.last())) =~= bviews(including(sets.drop_last(), e)).push(bview(sets.last())));
    }
}

proof fn lemma_vcover_of(sets: Seq<BoolSet>, c: BoolSet)
    ensures
        vcover_of(bviews(sets), bview(c)) == cover_of(sets, c),
    decreases sets.len(),
{
    if sets.len() > 0 {
        lemma_vcover_of(sets.drop_last(), c);
        assert(bviews(sets).drop_last() =~= bviews(sets.drop_last()));
    }
}

proof fn lemma_vwith_labels(sets: Seq<BoolSet>, labels: Seq<Label>)
    ensures
        vwith_labels(bviews(sets), labels) == bviews(with_labels(sets, labels)),
    decreases sets.len(),
{
    if sets.len() > 0 {
        lemma_vwith_labels(sets.drop_last(), labels);
        assert(bviews(sets).drop_last() =~= bviews(sets.drop_last()));
        assert(bviews(with_labels(sets.drop_last(), labels).push(sets.last())) =~= bviews(with_labels(sets.drop_last(), labels)).push(bview(sets.last())));
    }
}

/// The element `least_sets_element` gives is the one the search branches on.
proof fn lemma_least(sets: Seq<BoolSet>, e: int)
    requires
        e < width(sets),
        forall|x: int| 0 <= x < width(sets) ==> occurrences(sets, e) <= #[trigger] occurrences(sets, x),
        forall|x: int| 0 <= x < e ==> occurrences(sets, e) < #[trigger] occurrences(sets, x),
        0 <= e,
    ensures
        least_of(bviews(sets)) == e,
{
    let v = bviews(sets);
    lemma_vwidth(sets);
    assert forall|x: int| #![trigger occurrences(sets, x)] true implies voccurrences(v, x) == occurrences(sets, x) by {
        lemma_voccurrences(sets, x);
    }
    assert(is_least(v, e)) by {
        assert forall|x: int| 0 <= x < vwidth(v) implies voccurrences(v, e) <= #[trigger] voccurrences(v, x) by {
            assert(occurrences(sets, e) <= occurrences(sets, x));
        }
        assert forall|x: int| 0 <= x < e implies voccurrences(v, e) < #[trigger] voccurrences(v, x) by {
            assert(occurrences(sets, e) < occurrences(sets, x));
        }
    }
    let f = least_of(v);
    assert(is_least(v, f));
    if f < e {
        assert(voccurrences(v, e) < voccurrences(v, f));
    } else if e < f {
        assert(voccurrences(v, f) < voccurrences(v, e));
    }
}

/// Every exact cover of `sets` found by branching: with no set there is
/// none; a single set is a cover when all its positions are members; with
/// no element at all the sets themselves are the cover; otherwise the
/// search branches on the element in the fewest sets.
pub fn find_covers<'a>(sets: &[BoolSet<'a>]) -> (r: Vec<Vec<BoolSet<'a>>>)
    requires
        fits(sets@),
    ensures
        drawn_from(r@, sets@),
        sets@.len() == 0 ==> r@.len() == 0,
        sets@.len() == 1 ==> (r@.len() == 1 <==> forall|k: int| 0 <= k < sets@[0].1@.len() ==> sets@[0].1@[k]),
        sets@.len() == 1 ==> r@.len() <= 1 && (r@.len() == 1 ==> r@[0]@ == seq![sets@[0]]),
        cover_views(r@) == found(bviews(sets@)),
    decreases sets@.len(), 2int,
{
    if sets.len() == 0 {
        proof {
            assert(cover_views(Seq::<Vec<BoolSet>>::empty()) =~= found(bviews(sets@)));
        }
        Vec::new()
    } else if sets.len() == 1 {
        let arr = sets[0].1;
        let mut all = true;
        let mut k: usize = 0;
        while k < arr.len()
            invariant
                k <= arr@.len(),
                arr@ == sets@[0].1@,
                all <==> forall|j: int| 0 <= j < k ==> arr@[j],
            decreases arr@.len() - k,
        {
            if !arr[k] {
                all = false;
            }
            k += 1;
        }
        if all {
            let mut cover: Vec<BoolSet<'a>> = Vec::new();
            cover.push(sets[0]);
            let mut r: Vec<Vec<BoolSet<'a>>> = Vec::new();
            r.push(cover);
            proof {
                assert(r@[0]@ == seq![sets@[0]]);
                assert(sets@.contains(sets@[0]));
                assert(all_members(sets@[0].1@, sets@[0].1@.len() as int));
                assert(bviews(r@[0]@) =~= seq![bview(sets@[0])]);
                assert(cover_views(r@) =~= found(bviews(sets@)));
            }
            r
        } else {
            proof {
                assert(!all_members(bviews(sets@)[0].1, bviews(sets@)[0].1.len() as int)) by {
                    let j = choose|j: int| 0 <= j < k && !arr@[j];
                    assert(!member(sets@[0].1@, j));
                }
                assert(cover_views(Seq::<Vec<BoolSet>>::empty()) =~= found(bviews(sets@)));
            }
            Vec::new()
        }
    } else {
        match least_sets_element(sets) {
            None => {
                let mut all_sets: Vec<BoolSet<'a>> = Vec::new();
                let mut i: usize = 0;
                while i < sets.len()
                    invariant
                        i <= sets@.len(),
                        all_sets@ == sets@.take(i as int),
                    decreases sets@.len() - i,
                {
                    all_sets.push(sets[i]);
                    i += 1;
                    assert(all_sets@ =~= sets@.take(i as int));
                }
                let mut r: Vec<Vec<BoolSet<'a>>> = Vec::new();
                r.push(all_sets);
                proof {
                    assert(sets@.take(i as int) == sets@);
                    assert forall|c: int, k: int| 0 <= c < r@.len() && 0 <= k < r@[c]@.len() implies sets@.contains(#[trigger] r@[c]@[k]) by {
                        assert(r@[c]@[k] == sets@[k]);
                    }
                    lemma_vwidth(sets@);
                    assert(cover_views(r@) =~= found(bviews(sets@)));
                }
                r
            },
            Some(selected_elem) => {
                proof {
                    lemma_vwidth(sets@);
                    lemma_least(sets@, selected_elem as int);
                    lemma_vincluding(sets@, selected_elem as int);
                }
                find_associated_covers(sets, selected_elem)
            },
        }
    }
}

/// The covers found by branching on each set in which `elem` is a member.
pub fn find_associated_covers<'a>(sets: &[BoolSet<'a>], elem: Element) -> (r: Vec<Vec<BoolSet<'a>>>)
    requires
        fits(sets@),
    ensures
        drawn_from(r@, sets@),
        cover_views(r@) == found_each(bviews(sets@), vincluding(bviews(sets@), elem as int)),
    decreases sets@.len(), 1int,
{
    let mut all_covers: Vec<Vec<BoolSet<'a>>> = Vec::new();
    let candidate_sets = including_sets(sets, elem);
    proof {
        lemma_including(sets@, elem as int);
    }
    proof {
        lemma_vincluding(sets@, elem as int);
    }
    let mut i: usize = 0;
    while i < candidate_sets.len()
        invariant
            i <= candidate_sets@.len(),
            candidate_sets@ == including(sets@, elem as int),
            forall|k: int| 0 <= k < candidate_sets@.len() ==> sets@.contains(#[trigger] candidate_sets@[k])
                && member(candidate_sets@[k].1@, elem as int),
            drawn_from(all_covers@, sets@),
            fits(sets@),
            cover_views(all_covers@) == found_each(bviews(sets@), bviews(candidate_sets@.take(i as int))),
        decreases candidate_sets@.len() - i,
    {
        let set = candidate_sets[i];
        assert(sets@.contains(candidate_sets@[i as int]) && member(set.1@, elem as int));
        let mut subcovers = branch_covers(sets, set, Ghost(elem as int));
        let ghost before = all_covers@;
        let ghost subs = subcovers@;
        all_covers.append(&mut subcovers);
        proof {
            assert(all_covers@ == before + subs);
            assert forall|c: int, k: int| 0 <= c < all_covers@.len() && 0 <= k < all_covers@[c]@.len()
                implies sets@.contains(#[trigger] all_covers@[c]@[k]) by {
                if c < before.len() {
                    assert(all_covers@[c] == before[c]);
                } else {
                    assert(all_covers@[c] == subs[c - before.len()]);
                }
            }
            let bt = bviews(candidate_sets@.take(i + 1));
            assert(bt.drop_last() =~= bviews(candidate_sets@.take(i as int)));
            assert(bt.last() == bview(set));
            assert(cover_views(before + subs) =~= cover_views(before) + cover_views(subs));
        }
        i += 1;
    }
    proof {
        assert(candidate_sets@.take(i as int) =~= candidate_sets@);
    }
    all_covers
}

/// Every element below `width` is a member of `set`.
pub fn covers_all_elements(set: BoolSet, width: usize) -> (r: bool)
    ensures
        r == forall|e: int| 0 <= e < width ==> member(set.1@, e),
{
    let mut e: usize = 0;
    while e < width
        invariant
            e <= width,
            forall|x: int| 0 <= x < e ==> member(set.1@, x),
        decreases width - e,
    {
        if !set.get_bool(e) {
            return false;
        }
        e += 1;
    }
    true
}

/// The covers that contain `branch_set`: the covers of what is left after
/// choosing it, each mapped back to the sets it labels, with `branch_set`
/// added.  When no set is left, `branch_set` finishes a cover exactly when
/// it holds every element.
fn branch_covers<'a>(sets: &[BoolSet<'a>], branch_set: BoolSet<'a>, Ghost(elem): Ghost<int>) -> (r: Vec<Vec<BoolSet<'a>>>)
    requires
        fits(sets@),
        sets@.contains(branch_set),
        member(branch_set.1@, elem),
    ensures
        drawn_from(r@, sets@),
        cover_views(r@) == found_with(bviews(sets@), bview(branch_set)),
    decreases sets@.len(), 0int,
{
    let mut covers: Vec<Vec<BoolSet<'a>>> = Vec::new();
    let disjoint_sets = cover(sets, branch_set);
    let mut remaining_sets: Vec<BoolSet> = Vec::new();
    let mut i: usize = 0;
    while i < disjoint_sets.len()
        invariant
            i <= disjoint_sets@.len(),
            remaining_sets@.len() == i,
            fits(remaining_sets@),
            bviews(remaining_sets@) == disjoint_sets@.take(i as int).map_values(|o: OwnedSet| owned_view(o)),
        decreases disjoint_sets@.len() - i,
    {
        let owned = &disjoint_sets[i];
        let ghost before = remaining_sets@;
        remaining_sets.push(BoolSet::from_owned(owned));
        proof {
            assert(owned.1@.len() == owned.1.len());
            assert forall|k: int| 0 <= k < remaining_sets@.len() implies (#[trigger] remaining_sets@[k]).1@.len() <= usize::MAX by {
                if k < before.len() {
                    assert(remaining_sets@[k] == before[k]);
                }
            }
            let t1 = disjoint_sets@.take(i + 1).map_values(|o: OwnedSet| owned_view(o));
            let t0 = disjoint_sets@.take(i as int).map_values(|o: OwnedSet| owned_view(o));
            assert forall|k: int| 0 <= k < i + 1 implies bviews(remaining_sets@)[k] == t1[k] by {
                if k < i {
                    assert(remaining_sets@[k] == before[k]);
                    assert(bviews(before)[k] == t0[k]);
                } else {
                    assert(remaining_sets@[k].0 == disjoint_sets@[k].0);
                    assert(remaining_sets@[k].1@ == disjoint_sets@[k].1@);
                }
            }
            assert(bviews(remaining_sets@) =~= t1);
        }
        i += 1;
    }
    proof {
        let j = choose|j: int| 0 <= j < sets@.len() && sets@[j] == branch_set;
        assert(fits(sets@) && sets@[j] == branch_set);
        lemma_cover_shrinks(sets@, branch_set, elem);
        assert(disjoint_sets@.len() == cover_of(sets@, branch_set).len());
        assert(disjoint_sets@.take(i as int) =~= disjoint_sets@);
        lemma_vcover_of(sets@, branch_set);
        lemma_vwidth(sets@);
        assert(bviews(remaining_sets@) == vcover_of(bviews(sets@), bview(branch_set)));
    }
    let ghost v = bviews(sets@);
    let ghost b = bview(branch_set);
    let ghost fwl = |sub: Seq<SetView>| vwith_labels(v, sub.map_values(|x: SetView| x.0)).push(b);
    let subcovers = if remaining_sets.len() == 0 {
        let mut done: Vec<Vec<BoolSet>> = Vec::new();
        if covers_all_elements(branch_set, count_elements(sets)) {
            done.push(Vec::new());
            proof {
                assert(bviews(done@[0]@) =~= Seq::<SetView>::empty());
                assert(cover_views(done@) =~= seq![Seq::<SetView>::empty()]);
            }
        } else {
            proof {
                assert(cover_views(done@) =~= Seq::<Seq<SetView>>::empty());
            }
        }
        done
    } else {
        find_covers(remaining_sets.as_slice())
    };
    proof {
        assert(vcover_of(v, b).len() == 0 ==> cover_views(subcovers@) == (if all_members(b.1, vwidth(v) as int) {
            seq![Seq::<SetView>::empty()]
        } else {
            Seq::<Seq<SetView>>::empty()
        }));
        assert(vcover_of(v, b).len() > 0 ==> cover_views(subcovers@) == found(vcover_of(v, b)));
        assert(found_with(v, b) == cover_views(subcovers@).map_values(fwl));
    }
    let mut j: usize = 0;
    while j < subcovers.len()
        invariant
            j <= subcovers@.len(),
            sets@.contains(branch_set),
            drawn_from(covers@, sets@),
            v == bviews(sets@),
            b == bview(branch_set),
            fwl == (|sub: Seq<SetView>| vwith_labels(v, sub.map_values(|x: SetView| x.0)).push(b)),
            cover_views(covers@) == cover_views(subcovers@.take(j as int)).map_values(fwl),
            covers@.len() == j,
        decreases subcovers@.len() - j,
    {
        let set_indices = labels(subcovers[j].as_slice());
        let mut subcover = labeled_sets(sets, set_indices.as_slice());
        proof {
            lemma_with_labels(sets@, set_indices@);
            lemma_vwith_labels(sets@, set_indices@);
            assert(set_indices@ =~= bviews(subcovers@[j as int]@).map_values(|x: SetView| x.0));
        }
        subcover.push(branch_set);
        let ghost before = covers@;
        let ghost sc = subcover;
        covers.push(subcover);
        proof {
            assert forall|c: int, k: int| 0 <= c < covers@.len() && 0 <= k < covers@[c]@.len()
                implies sets@.contains(#[trigger] covers@[c]@[k]) by {
                if c < before.len() {
                    assert(covers@[c] == before[c]);
                }
            }
            assert(bviews(sc@) =~= fwl(bviews(subcovers@[j as int]@)));
            let u1 = cover_views(subcovers@.take(j + 1)).map_values(fwl);
            let u0 = cover_views(subcovers@.take(j as int)).map_values(fwl);
            assert forall|k: int| 0 <= k < j + 1 implies cover_views(covers@)[k] == u1[k] by {
                if k < j {
                    assert(covers@[k] == before[k]);
                    assert(cover_views(before)[k] == u0[k]);
                } else {
                    assert(covers@[k] == sc);
                }
            }
            assert(cover_views(covers@) =~= u1);
        }
        j += 1;
    }
    proof {
        assert(subcovers@.take(j as int) =~= subcovers@);
    }
    covers
}

/// The sets of the vectors, labelled by their positions.
pub fn vectors_to_sets<'a>(vectors: &'a [Vec<bool>]) -> (r: Vec<BoolSet<'a>>)
    ensures
        r@.len() == vectors@.len(),
        forall|i: int| 0 <= i < r@.len() ==> (#[trigger] r@[i]).0 == i && r@[i].1@ == vectors@[i]@,
{
    let mut r: Vec<BoolSet<'a>> = Vec::new();
    let mut i: usize = 0;
    while i < vectors.len()
        invariant
            i <= vectors@.len(),
            r@.len() == i,
            forall|j: int| 0 <= j < i ==> (#[trigger] r@[j]).0 == j && r@[j].1@ == vectors@[j]@,
        decreases vectors@.len() - i,
    {
        r.push(BoolSet(i, vectors[i].as_slice()));
        i += 1;
    }
    r
}

/// The membership vectors of the sets, in order.
pub fn set_slices<'a>(sets: &[BoolSet<'a>]) -> (r: Vec<&'a [bool]>)
    ensures
        r@.len() == sets@.len(),
        forall|i: int| 0 <= i < r@.len() ==> (#[trigger] r@[i])@ == sets@[i].1@,
{
    let mut r: Vec<&'a [bool]> = Vec::new();
    let mut i: usize = 0;
    while i < sets.len()
        invariant
            i <= sets@.len(),
            r@.len() == i,
            forall|j: int| 0 <= j < i ==> (#[trigger] r@[j])@ == sets@[j].1@,
        decreases sets@.len() - i,
    {
        r.push(sets[i].1);
        i += 1;
    }
    r
}

/// `s` is one of the vectors.
pub open spec fn is_input(vectors: Seq<Vec<bool>>, s: Seq<bool>) -> bool {
    exists|i: int| 0 <= i < vectors.len() && vectors[i]@ == s
}

/// The vectors as sets, each labelled by its position.
pub open spec fn vector_views(vectors: Seq<Vec<bool>>) -> Seq<SetView> {
    Seq::new(vectors.len(), |i: int| (i as usize, vectors[i]@))
}

/// All exact covers of the vectors found by the search; each cover is a
/// list of the given vectors.  For a non-empty list of vectors of one
/// width of at least 1, each with some `true`: the `k`-th vector of cover
/// `c` is the input vector at position `found(..)[c][k].0`; those
/// positions, never one twice, pick an exact cover (every position below
/// the width is `true` in exactly one picked vector); no two covers pick
/// the same positions; and every set of positions that picks an exact
/// cover is picked by some cover.
pub fn exact_cover(vectors: &[Vec<bool>]) -> (r: Vec<Vec<&[bool]>>)
    ensures
        uniform(vectors@) ==> forall|c: int, k: int|
            0 <= c < r@.len() && 0 <= k < r@[c]@.len() ==> (#[trigger] r@[c]@[k])@ == vectors@[found(
                vector_views(vectors@),
            )[c][k].0 as int]@,
        uniform(vectors@) ==> forall|c: int|
            0 <= c < r@.len() ==> #[trigger] cover_from(
                vector_views(vectors@),
                found(vector_views(vectors@))[c],
                width_of(vectors@),
            ),
        uniform(vectors@) ==> apart(found(vector_views(vectors@))),
        uniform(vectors@) ==> forall|picked: Set<usize>|
            #[trigger] exact(vector_views(vectors@), picked, width_of(vectors@)) ==> listed(
                found(vector_views(vectors@)),
                picked,
            ),
        vectors@.len() == 0 ==> r@.len() == 0,
        forall|c: int, k: int| 0 <= c < r@.len() && 0 <= k < r@[c]@.len() ==> is_input(vectors@, (#[trigger] r@[c]@[k])@),
        r@.len() == found(vector_views(vectors@)).len(),
        forall|c: int| 0 <= c < r@.len() ==> (#[trigger] r@[c])@.len() == found(vector_views(vectors@))[c].len(),
        forall|c: int, k: int| 0 <= c < r@.len() && 0 <= k < r@[c]@.len() ==> (#[trigger] r@[c]@[k])@ == found(vector_views(vectors@))[c][k].1,
{
    let sets = vectors_to_sets(vectors);
    proof {
        assert forall|i: int| 0 <= i < sets@.len() implies (#[trigger] sets@[i]).1@.len() <= usize::MAX by {
            assert(vectors@[i]@.len() == vectors@[i].len());
        }
    }
    let covers = find_covers(sets.as_slice());
    let ghost fv = found(vector_views(vectors@));
    proof {
        assert(bviews(sets@) =~= vector_views(vectors@));
        assert(cover_views(covers@) == fv);
        assert(covers@.len() == fv.len());
    }
    let mut r: Vec<Vec<&[bool]>> = Vec::new();
    let mut c: usize = 0;
    while c < covers.len()
        invariant
            c <= covers@.len(),
            drawn_from(covers@, sets@),
            vectors@.len() == 0 ==> covers@.len() == 0,
            sets@.len() == vectors@.len(),
            forall|i: int| 0 <= i < sets@.len() ==> (#[trigger] sets@[i]).0 == i && sets@[i].1@ == vectors@[i]@,
            r@.len() == c,
            forall|a: int, k: int| 0 <= a < r@.len() && 0 <= k < r@[a]@.len() ==> is_input(vectors@, (#[trigger] r@[a]@[k])@),
            cover_views(covers@) == fv,
            forall|a: int| 0 <= a < r@.len() ==> (#[trigger] r@[a])@.len() == fv[a].len(),
            forall|a: int, k: int| 0 <= a < r@.len() && 0 <= k < r@[a]@.len() ==> (#[trigger] r@[a]@[k])@ == fv[a][k].1,
        decreases covers@.len() - c,
    {
        let slices = set_slices(covers[c].as_slice());
        let ghost before = r@;
        proof {
            assert forall|k: int| 0 <= k < slices@.len() implies is_input(vectors@, (#[trigger] slices@[k])@) by {
                assert(sets@.contains(covers@[c as int]@[k]));
                let i = choose|i: int| 0 <= i < sets@.len() && sets@[i] == covers@[c as int]@[k];
                assert(sets@[i].1@ == vectors@[i]@);
                assert(vectors@[i]@ == slices@[k]@);
            }
        }
        r.push(slices);
        proof {
            assert forall|a: int, k: int| 0 <= a < r@.len() && 0 <= k < r@[a]@.len() implies is_input(vectors@, (#[trigger] r@[a]@[k])@) by {
                if a < before.len() {
                    assert(r@[a] == before[a]);
                } else {
                    assert(r@[a] == slices);
                    assert(r@[a]@[k] == slices@[k]);
                }
            }
            assert(cover_views(covers@)[c as int] == bviews(covers@[c as int]@));
            assert forall|a: int| 0 <= a < r@.len() implies (#[trigger] r@[a])@.len() == fv[a].len() by {
                if a < before.len() {
                    assert(r@[a] == before[a]);
                }
            }
            assert forall|a: int, k: int| 0 <= a < r@.len() && 0 <= k < r@[a]@.len() implies (#[trigger] r@[a]@[k])@ == fv[a][k].1 by {
                if a < before.len() {
                    assert(r@[a] == before[a]);
                } else {
                    assert(r@[a] == slices);
                    assert(bviews(covers@[c as int]@)[k] == bview(covers@[c as int]@[k]));
                }
            }
        }
        c += 1;
    }
    proof {
        if uniform(vectors@) {
            assert(vectors@.len() == vectors.len());
            lemma_vector_family(vectors@);
            lemma_found(vector_views(vectors@), width_of(vectors@));
            assert forall|a: int, k: int| 0 <= a < r@.len() && 0 <= k < r@[a]@.len() implies (#[trigger] r@[a]@[k])@
                == vectors@[fv[a][k].0 as int]@ by {
                assert(cover_from(vector_views(vectors@), fv[a], width_of(vectors@)));
                assert(fv[a][k].1 == vectors@[fv[a][k].0 as int]@);
            }
        }
    }
    r
}

} // verus!
