//! The bag rules, once read: which colours hold which, what the two lookups
//! built from the rules contain, which colours eventually hold a colour and
//! how many bags one bag holds. Shared by both readers of the rules.

use vstd::prelude::*;
use crate::bytes::{bytes_eq, push_bytes};
use crate::graph::{is_walk, has_edge, reaches, reached_from, reachable_from, well_formed};

verus! {

/// One kind of bag inside another: how many, and their colour.
pub type SpecItem = (i32, Seq<u8>);

/// A rule: the outer colour and, unless it holds no other bags, what it
/// holds.
pub type SpecRule = (Seq<u8>, Option<Seq<SpecItem>>);

/// Rule `i` lists contents and `j` is the position of one of them.
pub open spec fn lists_item(rules: Seq<SpecRule>, i: int, j: int) -> bool {
    0 <= i < rules.len() && rules[i].1 is Some && 0 <= j < rules[i].1->0.len()
}

/// The colour of the `j`th kind of bag listed by rule `i`.
pub open spec fn item_colour(rules: Seq<SpecRule>, i: int, j: int) -> Seq<u8> {
    rules[i].1->0[j].1
}

/// Some rule with contents lists colour `c` among them.
pub open spec fn listed_inside(rules: Seq<SpecRule>, c: Seq<u8>) -> bool {
    exists|i: int, j: int| #[trigger] lists_item(rules, i, j) && item_colour(rules, i, j) == c
}

/// A rule for colour `h` lists colour `c` among its contents.
pub open spec fn direct_holder(rules: Seq<SpecRule>, h: Seq<u8>, c: Seq<u8>) -> bool {
    exists|i: int, j: int|
        #[trigger] lists_item(rules, i, j) && item_colour(rules, i, j) == c && rules[i].0 == h
}

/// The "is inside" lookup: for each colour listed inside some rule, the
/// colours of the rules that list it.
pub open spec fn inside_map(rules: Seq<SpecRule>) -> Map<Seq<u8>, Set<Seq<u8>>> {
    Map::new(
        |c: Seq<u8>| listed_inside(rules, c),
        |c: Seq<u8>| Set::new(|h: Seq<u8>| direct_holder(rules, h, c)),
    )
}

/// The "contains" lookup: each rule with contents, read in order, sets the
/// entry of its colour to those contents; rules that hold no bags are
/// passed over.
pub open spec fn contents_map(rules: Seq<SpecRule>) -> Map<Seq<u8>, Seq<SpecItem>>
    decreases rules.len(),
{
    if rules.len() == 0 {
        Map::empty()
    } else {
        let m = contents_map(rules.drop_last());
        match rules.last().1 {
            Some(items) => m.insert(rules.last().0, items),
            None => m,
        }
    }
}

/// One step up: `y` directly holds `x` according to the "is inside" lookup.
pub open spec fn holds_step(m: Map<Seq<u8>, Set<Seq<u8>>>, x: Seq<u8>, y: Seq<u8>) -> bool {
    m.dom().contains(x) && m[x].contains(y)
}

/// `p` is a chain of at least two colours, each directly held by the next.
pub open spec fn is_holder_chain(m: Map<Seq<u8>, Set<Seq<u8>>>, p: Seq<Seq<u8>>) -> bool {
    &&& p.len() >= 2
    &&& forall|i: int, j: int|
        #![trigger p[i], p[j]]
        0 <= i && j == i + 1 && j < p.len() ==> holds_step(m, p[i], p[j])
}

/// `y` holds a bag of colour `c`, directly or through bags inside bags.
pub open spec fn holds_eventually(m: Map<Seq<u8>, Set<Seq<u8>>>, c: Seq<u8>, y: Seq<u8>) -> bool {
    exists|p: Seq<Seq<u8>>| #[trigger] is_holder_chain(m, p) && p[0] == c && p.last() == y
}

/// `v` is the value of a 32-bit signed integer.
pub open spec fn fits_i32(v: int) -> bool {
    i32::MIN <= v <= i32::MAX
}

/// The number of bags inside one bag of colour `c`, following the
/// "contains" lookup at most `depth` levels down: `None` when the depth runs
/// out or when a step of the count leaves the range of `i32`. A colour
/// without an entry holds nothing.
pub open spec fn count_within(m: Map<Seq<u8>, Seq<SpecItem>>, c: Seq<u8>, depth: nat) -> Option<
    int,
>
    decreases depth, 0nat,
{
    if depth == 0 {
        None
    } else if !m.dom().contains(c) {
        Some(0)
    } else {
        sum_within(m, m[c], (depth - 1) as nat)
    }
}

/// The sum, from the first kind to the last, of `count * (1 + inside)` over
/// `items`, where `inside` is the count for the item's colour; `None` when
/// any of these fails or leaves the range of `i32`.
pub open spec fn sum_within(m: Map<Seq<u8>, Seq<SpecItem>>, items: Seq<SpecItem>, depth: nat) -> Option<
    int,
>
    decreases depth, items.len(),
{
    if items.len() == 0 {
        Some(0)
    } else {
        match sum_within(m, items.drop_last(), depth) {
            None => None,
            Some(acc) => match count_within(m, items.last().1, depth) {
                None => None,
                Some(inner) => {
                    let bags = 1 + inner;
                    let total = items.last().0 * bags;
                    if fits_i32(bags) && fits_i32(total) && fits_i32(acc + total) {
                        Some(acc + total)
                    } else {
                        None
                    }
                },
            },
        }
    }
}

/// A rule read from text, borrowing its colours from the text.
pub struct RuleRef<'a> {
    pub colour: &'a [u8],
    pub contents: Option<Vec<(i32, &'a [u8])>>,
}

/// The contents of a rule read from text.
pub open spec fn rule_ref_view(r: RuleRef) -> SpecRule {
    (
        r.colour@,
        match r.contents {
            Some(v) => Some(v@.map_values(|it: (i32, &[u8])| (it.0, it.1@))),
            None => None,
        },
    )
}

/// The contents of a list of rules read from text.
pub open spec fn rule_refs_view(rs: Seq<RuleRef>) -> Seq<SpecRule> {
    rs.map_values(|r: RuleRef| rule_ref_view(r))
}

/// Both lookups built from the rules, over a table of the colours named in
/// them: each colour is known by its position in `names`.
pub struct Lookups {
    names: Vec<Vec<u8>>,
    inside: Vec<Vec<usize>>,
    contents: Vec<Option<Vec<(i32, usize)>>>,
}

impl Lookups {
    /// The colour table: distinct colours.
    pub closed spec fn names_view(&self) -> Seq<Seq<u8>> {
        self.names@.map_values(|v: Vec<u8>| v@)
    }

    /// Well-formed: the tables have one entry per colour, colours are
    /// distinct and every index names a colour.
    pub closed spec fn wf(&self) -> bool {
        &&& self.inside.len() == self.names.len()
        &&& self.contents.len() == self.names.len()
        &&& self.names_view().no_duplicates()
        &&& forall|x: int, k: int|
            0 <= x < self.inside.len() && 0 <= k < self.inside[x].len() ==> #[trigger] self.inside[x][k]
                < self.names.len()
        &&& forall|x: int, k: int|
            0 <= x < self.contents.len() && self.contents[x] is Some && 0 <= k
                < self.contents[x]->0.len() ==> #[trigger] self.contents[x]->0[k].1 < self.names.len()
    }

    /// Position of colour `c` in the table.
    pub closed spec fn id_of(&self, c: Seq<u8>) -> int {
        choose|x: int| 0 <= x < self.names.len() && self.names_view()[x] == c
    }

    /// The "is inside" lookup held.
    pub closed spec fn inside_view(&self) -> Map<Seq<u8>, Set<Seq<u8>>> {
        Map::new(
            |c: Seq<u8>|
                self.names_view().contains(c) && self.inside[self.id_of(c)].len() > 0,
            |c: Seq<u8>|
                Set::new(
                    |h: Seq<u8>|
                        exists|k: int|
                            0 <= k < self.inside[self.id_of(c)].len()
                                && #[trigger] self.names_view()[self.inside[self.id_of(
                                c,
                            )][k] as int] == h,
                ),
        )
    }

    /// The "contains" lookup held.
    pub closed spec fn contents_view(&self) -> Map<Seq<u8>, Seq<SpecItem>> {
        Map::new(
            |c: Seq<u8>| self.names_view().contains(c) && self.contents[self.id_of(c)] is Some,
            |c: Seq<u8>|
                self.contents[self.id_of(c)]->0@.map_values(
                    |it: (i32, usize)| (it.0, self.names_view()[it.1 as int]),
                ),
        )
    }

    /// The number of distinct colours in the table.
    pub closed spec fn colour_count(&self) -> nat {
        self.names.len() as nat
    }
}


/// The number of distinct colours the rules name.
pub open spec fn colour_total(rules: Seq<SpecRule>) -> nat {
    Set::new(|c: Seq<u8>| mentioned(rules, c)).len()
}

/// The colours that eventually hold a bag of colour `c`.
pub open spec fn holders_of(rules: Seq<SpecRule>, c: Seq<u8>) -> Set<Seq<u8>> {
    Set::new(|y: Seq<u8>| holds_eventually(inside_map(rules), c, y))
}

/// The number of bags inside one bag of colour `c`, counted through the
/// "contains" lookup of the rules no deeper than one level more than the
/// rules name colours.
pub open spec fn count_for(rules: Seq<SpecRule>, c: Seq<u8>) -> Option<int> {
    count_within(contents_map(rules), c, colour_total(rules) + 1)
}

/// The colour the puzzle asks about.
pub open spec fn shiny_gold() -> Seq<u8> {
    crate::bytes::ascii("shiny gold"@)
}

/// A colour named by some rule, as its outer colour or among its contents.
pub open spec fn mentioned(rules: Seq<SpecRule>, c: Seq<u8>) -> bool {
    (exists|i: int| 0 <= i < rules.len() && #[trigger] rules[i].0 == c) || listed_inside(rules, c)
}

/// The contents of a table of colours.
pub open spec fn names_of(v: Seq<Vec<u8>>) -> Seq<Seq<u8>> {
    v.map_values(|x: Vec<u8>| x@)
}

proof fn lemma_direct_holder_push(rules: Seq<SpecRule>, r: SpecRule, h: Seq<u8>, c: Seq<u8>)
    ensures
        direct_holder(rules.push(r), h, c) <==> direct_holder(rules, h, c) || (r.1 is Some && r.0
            == h && exists|j: int| 0 <= j < r.1->0.len() && #[trigger] r.1->0[j].1 == c),
{
    let rp = rules.push(r);
    if direct_holder(rp, h, c) {
        let (i, j) = choose|i: int, j: int|
            #[trigger] lists_item(rp, i, j) && item_colour(rp, i, j) == c && rp[i].0 == h;
        if i < rules.len() {
            assert(lists_item(rules, i, j) && item_colour(rules, i, j) == c && rules[i].0 == h);
        } else {
            assert(r.1->0[j].1 == c);
        }
    }
    if direct_holder(rules, h, c) {
        let (i, j) = choose|i: int, j: int|
            #[trigger] lists_item(rules, i, j) && item_colour(rules, i, j) == c && rules[i].0 == h;
        assert(lists_item(rp, i, j) && item_colour(rp, i, j) == c && rp[i].0 == h);
    }
    if r.1 is Some && r.0 == h && exists|j: int| 0 <= j < r.1->0.len() && #[trigger] r.1->0[j].1 == c {
        let j = choose|j: int| 0 <= j < r.1->0.len() && #[trigger] r.1->0[j].1 == c;
        let i = rules.len() as int;
        assert(lists_item(rp, i, j) && item_colour(rp, i, j) == c && rp[i].0 == h);
    }
}

proof fn lemma_mentioned_push(rules: Seq<SpecRule>, r: SpecRule, c: Seq<u8>)
    ensures
        mentioned(rules.push(r), c) <==> mentioned(rules, c) || r.0 == c || (r.1 is Some && exists|
            j: int,
        | 0 <= j < r.1->0.len() && #[trigger] r.1->0[j].1 == c),
{
    let rp = rules.push(r);
    if mentioned(rp, c) {
        if exists|i: int| 0 <= i < rp.len() && #[trigger] rp[i].0 == c {
            let i = choose|i: int| 0 <= i < rp.len() && #[trigger] rp[i].0 == c;
            if i < rules.len() {
                assert(rules[i].0 == c);
            }
        } else {
            let (i, j) = choose|i: int, j: int|
                #[trigger] lists_item(rp, i, j) && item_colour(rp, i, j) == c;
            if i < rules.len() {
                assert(lists_item(rules, i, j) && item_colour(rules, i, j) == c);
            } else {
                assert(r.1->0[j].1 == c);
            }
        }
    }
    if mentioned(rules, c) {
        if exists|i: int| 0 <= i < rules.len() && #[trigger] rules[i].0 == c {
            let i = choose|i: int| 0 <= i < rules.len() && #[trigger] rules[i].0 == c;
            assert(rp[i].0 == c);
        } else {
            let (i, j) = choose|i: int, j: int|
                #[trigger] lists_item(rules, i, j) && item_colour(rules, i, j) == c;
            assert(lists_item(rp, i, j) && item_colour(rp, i, j) == c);
        }
    }
    if r.0 == c {
        assert(rp[rules.len() as int].0 == c);
    }
    if r.1 is Some && exists|j: int| 0 <= j < r.1->0.len() && #[trigger] r.1->0[j].1 == c {
        let j = choose|j: int| 0 <= j < r.1->0.len() && #[trigger] r.1->0[j].1 == c;
        let i = rules.len() as int;
        assert(lists_item(rp, i, j) && item_colour(rp, i, j) == c);
    }
}

proof fn lemma_contents_dom_mentioned(rules: Seq<SpecRule>, c: Seq<u8>)
    requires
        contents_map(rules).dom().contains(c),
    ensures
        exists|i: int| 0 <= i < rules.len() && #[trigger] rules[i].0 == c,
    decreases rules.len(),
{
    let pre = rules.drop_last();
    if rules.last().1 is Some && rules.last().0 == c {
        assert(rules[rules.len() - 1].0 == c);
    } else {
        lemma_contents_dom_mentioned(pre, c);
        let i = choose|i: int| 0 <= i < pre.len() && #[trigger] pre[i].0 == c;
        assert(rules[i].0 == c);
    }
}

/// Finds colour `c` in the table, adding it with empty entries if new.
fn intern(
    names: &mut Vec<Vec<u8>>,
    inside: &mut Vec<Vec<usize>>,
    contents: &mut Vec<Option<Vec<(i32, usize)>>>,
    c: &[u8],
) -> (id: usize)
    requires
        old(names).len() == old(inside).len(),
        old(names).len() == old(contents).len(),
        names_of(old(names)@).no_duplicates(),
    ensures
        final(names).len() == final(inside).len(),
        final(names).len() == final(contents).len(),
        names_of(final(names)@).no_duplicates(),
        id < final(names).len(),
        names_of(final(names)@)[id as int] == c@,
        names_of(old(names)@).contains(c@) ==> final(names)@ == old(names)@ && final(inside)@
            == old(inside)@ && final(contents)@ == old(contents)@,
        !names_of(old(names)@).contains(c@) ==> {
            &&& names_of(final(names)@) == names_of(old(names)@).push(c@)
            &&& final(inside)@ == old(inside)@.push(final(inside)@.last())
            &&& final(inside)@.last()@.len() == 0
            &&& final(contents)@ == old(contents)@.push(None)
            &&& id == old(names).len()
        },
{
    let mut x: usize = 0;
    while x < names.len()
        invariant
            names@ == old(names)@,
            inside@ == old(inside)@,
            contents@ == old(contents)@,
            names.len() == inside.len(),
            names.len() == contents.len(),
            names_of(names@).no_duplicates(),
            x <= names.len(),
            forall|y: int| 0 <= y < x ==> names_of(names@)[y] != c@,
        decreases names.len() - x,
    {
        if bytes_eq(names[x].as_slice(), c) {
            proof {
                assert(names_of(names@)[x as int] == c@);
                assert(names_of(names@).contains(c@));
            }
            return x;
        }
        x = x + 1;
    }
    proof {
        assert(!names_of(names@).contains(c@));
    }
    let ghost old_names = names_of(names@);
    let mut copy: Vec<u8> = Vec::new();
    crate::bytes::push_bytes(&mut copy, c);
    assert(copy@ =~= c@);
    names.push(copy);
    inside.push(Vec::new());
    contents.push(None);
    proof {
        assert(names_of(names@) =~= old_names.push(c@));
        assert forall|a: int, b: int|
            0 <= a < names_of(names@).len() && 0 <= b < names_of(names@).len() && a != b implies names_of(
            names@,
        )[a] != names_of(names@)[b] by {
            if b == old_names.len() {
                assert(old_names[a] != c@);
            } else if a == old_names.len() {
                assert(old_names[b] != c@);
            }
        }
    }
    names.len() - 1
}

/// Item positions replaced by the colours they name.
pub open spec fn items_named(nm: Seq<Seq<u8>>, v: Seq<(i32, usize)>) -> Seq<SpecItem> {
    v.map_values(|it: (i32, usize)| (it.0, nm[it.1 as int]))
}

/// Some item of `items` has colour `c`.
pub open spec fn lists_colour(items: Seq<SpecItem>, c: Seq<u8>) -> bool {
    exists|j: int| 0 <= j < items.len() && #[trigger] items[j].1 == c
}

/// The table is consistent: matching lengths, distinct colours, positions
/// in range.
spec fn table_ok(
    nm: Seq<Seq<u8>>,
    inside: Seq<Vec<usize>>,
    contents: Seq<Option<Vec<(i32, usize)>>>,
) -> bool {
    &&& inside.len() == nm.len()
    &&& contents.len() == nm.len()
    &&& nm.len() <= usize::MAX
    &&& nm.no_duplicates()
    &&& forall|x: int, k: int|
        0 <= x < inside.len() && 0 <= k < inside[x]@.len() ==> #[trigger] inside[x]@[k] < nm.len()
    &&& forall|x: int, k: int|
        0 <= x < contents.len() && contents[x] is Some && 0 <= k < contents[x]->0@.len()
            ==> #[trigger] contents[x]->0@[k].1 < nm.len()
}

/// The table holds the lookups of `rules`, with the rule for `h0` listing
/// `extra` so far counted among the holders and the names.
spec fn table_matches(
    nm: Seq<Seq<u8>>,
    inside: Seq<Vec<usize>>,
    contents: Seq<Option<Vec<(i32, usize)>>>,
    rules: Seq<SpecRule>,
    h0: Option<Seq<u8>>,
    extra: Seq<SpecItem>,
) -> bool {
    &&& forall|c: Seq<u8>|
        #[trigger] nm.contains(c) <==> mentioned(rules, c) || h0 == Some(c) || (h0 is Some
            && lists_colour(extra, c))
    &&& forall|x: int, h: int|
        0 <= x < nm.len() && 0 <= h < nm.len() ==> (#[trigger] inside[x]@.contains(h as usize)
            <==> direct_holder(rules, nm[h], nm[x]) || (h0 == Some(nm[h]) && lists_colour(
            extra,
            nm[x],
        )))
    &&& forall|x: int|
        0 <= x < nm.len() ==> (#[trigger] contents[x] is Some <==> contents_map(rules).dom().contains(
            nm[x],
        ))
    &&& forall|x: int|
        0 <= x < nm.len() && #[trigger] contents[x] is Some ==> items_named(nm, contents[x]->0@)
            == contents_map(rules)[nm[x]]
}

proof fn lemma_lists_colour_push(items: Seq<SpecItem>, it: SpecItem, c: Seq<u8>)
    ensures
        lists_colour(items.push(it), c) <==> lists_colour(items, c) || it.1 == c,
{
    let ip = items.push(it);
    if lists_colour(ip, c) {
        let j = choose|j: int| 0 <= j < ip.len() && #[trigger] ip[j].1 == c;
        if j < items.len() {
            assert(items[j].1 == c);
        }
    }
    if lists_colour(items, c) {
        let j = choose|j: int| 0 <= j < items.len() && #[trigger] items[j].1 == c;
        assert(ip[j].1 == c);
    }
    if it.1 == c {
        assert(ip[items.len() as int].1 == c);
    }
}

proof fn lemma_contains_push(s: Seq<Seq<u8>>, x: Seq<u8>, c: Seq<u8>)
    ensures
        s.push(x).contains(c) <==> s.contains(c) || x == c,
{
    if s.contains(c) {
        let k = choose|k: int| 0 <= k < s.len() && s[k] == c;
        assert(s.push(x)[k] == c);
    }
    if x == c {
        assert(s.push(x)[s.len() as int] == c);
    }
    if s.push(x).contains(c) {
        let k = choose|k: int| 0 <= k < s.push(x).len() && s.push(x)[k] == c;
        if k < s.len() {
            assert(s[k] == c);
        }
    }
}

proof fn lemma_holder_mentioned(rules: Seq<SpecRule>, h: Seq<u8>, c: Seq<u8>)
    requires
        direct_holder(rules, h, c),
    ensures
        mentioned(rules, h),
        mentioned(rules, c),
{
    let (i, j) = choose|i: int, j: int|
        #[trigger] lists_item(rules, i, j) && item_colour(rules, i, j) == c && rules[i].0 == h;
    assert(rules[i].0 == h);
    assert(lists_item(rules, i, j) && item_colour(rules, i, j) == c);
}

/// Adds colour `c` to the table, keeping the lookups it describes.
fn intern_keeping(
    names: &mut Vec<Vec<u8>>,
    inside: &mut Vec<Vec<usize>>,
    contents: &mut Vec<Option<Vec<(i32, usize)>>>,
    c: &[u8],
    Ghost(rules): Ghost<Seq<SpecRule>>,
    Ghost(h0): Ghost<Option<Seq<u8>>>,
    Ghost(extra): Ghost<Seq<SpecItem>>,
) -> (id: usize)
    requires
        table_ok(names_of(old(names)@), old(inside)@, old(contents)@),
        table_matches(names_of(old(names)@), old(inside)@, old(contents)@, rules, h0, extra),
    ensures
        table_ok(names_of(final(names)@), final(inside)@, final(contents)@),
        id < final(names).len(),
        names_of(final(names)@)[id as int] == c@,
        forall|x: int|
            0 <= x < old(names).len() ==> #[trigger] names_of(final(names)@)[x] == names_of(
                old(names)@,
            )[x],
        final(names).len() >= old(names).len(),
        forall|d: Seq<u8>|
            #[trigger] names_of(final(names)@).contains(d) <==> names_of(old(names)@).contains(d)
                || d == c@,
        forall|x: int| 0 <= x < old(names).len() ==> #[trigger] final(inside)@[x] == old(inside)@[x],
        forall|x: int|
            0 <= x < old(names).len() ==> #[trigger] final(contents)@[x] == old(contents)@[x],
        forall|x: int|
            old(names).len() <= x < final(names).len() ==> #[trigger] final(inside)@[x]@.len() == 0,
        forall|x: int| old(names).len() <= x < final(names).len() ==> #[trigger] final(contents)@[x] is None,
        !names_of(old(names)@).contains(c@) ==> !mentioned(rules, c@) && h0 != Some(c@) && !(h0 is Some
            && lists_colour(extra, c@)),
{
    let ghost nm0 = names_of(names@);
    let id = intern(names, inside, contents, c);
    proof {
        let nm = names_of(names@);
        if !nm0.contains(c@) {
            assert(nm =~= nm0.push(c@));
            assert forall|d: Seq<u8>| #[trigger] nm.contains(d) <==> nm0.contains(d) || d == c@ by {
                lemma_contains_push(nm0, c@, d);
            }
            assert forall|x: int| 0 <= x < nm0.len() implies #[trigger] nm[x] == nm0[x] by {}
            assert forall|x: int, k: int|
                0 <= x < inside@.len() && 0 <= k < inside@[x]@.len() implies #[trigger] inside@[x]@[k]
                < nm.len() by {
                if x < nm0.len() {
                    assert(inside@[x] == old(inside)@[x]);
                }
            }
            assert forall|x: int, k: int|
                0 <= x < contents@.len() && contents@[x] is Some && 0 <= k < contents@[x]->0@.len()
                    implies #[trigger] contents@[x]->0@[k].1 < nm.len() by {
                if x < nm0.len() {
                    assert(contents@[x] == old(contents)@[x]);
                }
            }
        } else {
            assert(nm == nm0);
        }
    }
    id
}

/// The part of `table_matches` about holders and contents.
spec fn table_matches_lookups(
    nm: Seq<Seq<u8>>,
    inside: Seq<Vec<usize>>,
    contents: Seq<Option<Vec<(i32, usize)>>>,
    rules: Seq<SpecRule>,
    h0: Option<Seq<u8>>,
    extra: Seq<SpecItem>,
) -> bool {
    &&& forall|x: int, h: int|
        0 <= x < nm.len() && 0 <= h < nm.len() ==> (#[trigger] inside[x]@.contains(h as usize)
            <==> direct_holder(rules, nm[h], nm[x]) || (h0 == Some(nm[h]) && lists_colour(
            extra,
            nm[x],
        )))
    &&& forall|x: int|
        0 <= x < nm.len() ==> (#[trigger] contents[x] is Some <==> contents_map(rules).dom().contains(
            nm[x],
        ))
    &&& forall|x: int|
        0 <= x < nm.len() && #[trigger] contents[x] is Some ==> items_named(nm, contents[x]->0@)
            == contents_map(rules)[nm[x]]
}

proof fn lemma_matches_after_intern(
    nm0: Seq<Seq<u8>>,
    in0: Seq<Vec<usize>>,
    ct0: Seq<Option<Vec<(i32, usize)>>>,
    nm: Seq<Seq<u8>>,
    in1: Seq<Vec<usize>>,
    ct1: Seq<Option<Vec<(i32, usize)>>>,
    rules: Seq<SpecRule>,
    h0: Option<Seq<u8>>,
    extra: Seq<SpecItem>,
    c: Seq<u8>,
)
    requires
        table_ok(nm0, in0, ct0),
        table_ok(nm, in1, ct1),
        table_matches(nm0, in0, ct0, rules, h0, extra),
        nm.len() >= nm0.len(),
        forall|x: int| 0 <= x < nm0.len() ==> #[trigger] nm[x] == nm0[x],
        forall|d: Seq<u8>| #[trigger] nm.contains(d) <==> nm0.contains(d) || d == c,
        forall|x: int| 0 <= x < nm0.len() ==> #[trigger] in1[x] == in0[x],
        forall|x: int| 0 <= x < nm0.len() ==> #[trigger] ct1[x] == ct0[x],
        forall|x: int| nm0.len() <= x < nm.len() ==> #[trigger] in1[x]@.len() == 0,
        forall|x: int| nm0.len() <= x < nm.len() ==> #[trigger] ct1[x] is None,
        !nm0.contains(c) ==> !mentioned(rules, c) && h0 != Some(c) && !(h0 is Some && lists_colour(
            extra,
            c,
        )),
    ensures
        table_matches_lookups(nm, in1, ct1, rules, h0, extra),
        forall|d: Seq<u8>|
            #[trigger] nm.contains(d) <==> mentioned(rules, d) || h0 == Some(d) || (h0 is Some
                && lists_colour(extra, d)) || d == c,
{
    assert forall|x: int, h: int| 0 <= x < nm.len() && 0 <= h < nm.len() implies (
    #[trigger] in1[x]@.contains(h as usize) <==> direct_holder(rules, nm[h], nm[x]) || (h0 == Some(
        nm[h],
    ) && lists_colour(extra, nm[x]))) by {
        if x < nm0.len() && h < nm0.len() {
            assert(in1[x] == in0[x]);
            assert(in0[x]@.contains(h as usize) <==> direct_holder(rules, nm0[h], nm0[x]) || (h0
                == Some(nm0[h]) && lists_colour(extra, nm0[x])));
        } else if x < nm0.len() {
            // `h` is the new colour `c`, which no rule names
            assert(nm[h] == c) by {
                assert(nm.contains(nm[h]));
                if nm[h] != c {
                    assert(nm0.contains(nm[h]));
                    let k = choose|k: int| 0 <= k < nm0.len() && nm0[k] == nm[h];
                    assert(nm[k] == nm[h]);
                }
            }
            assert(!nm0.contains(c)) by {
                if nm0.contains(c) {
                    let k = choose|k: int| 0 <= k < nm0.len() && nm0[k] == c;
                    assert(nm[k] == nm[h]);
                }
            }
            if direct_holder(rules, nm[h], nm[x]) {
                lemma_holder_mentioned(rules, nm[h], nm[x]);
            }
            if in1[x]@.contains(h as usize) {
                let k = choose|k: int| 0 <= k < in1[x]@.len() && in1[x]@[k] == h as usize;
                assert(in0[x]@[k] < nm0.len());
            }
        } else {
            // `x` is the new colour `c`
            assert(nm[x] == c) by {
                assert(nm.contains(nm[x]));
                if nm[x] != c {
                    assert(nm0.contains(nm[x]));
                    let k = choose|k: int| 0 <= k < nm0.len() && nm0[k] == nm[x];
                    assert(nm[k] == nm[x]);
                }
            }
            assert(!nm0.contains(c)) by {
                if nm0.contains(c) {
                    let k = choose|k: int| 0 <= k < nm0.len() && nm0[k] == c;
                    assert(nm[k] == nm[x]);
                }
            }
            if direct_holder(rules, nm[h], nm[x]) {
                lemma_holder_mentioned(rules, nm[h], nm[x]);
            }
        }
    }
    assert forall|x: int| 0 <= x < nm.len() implies (#[trigger] ct1[x] is Some
        <==> contents_map(rules).dom().contains(nm[x])) by {
        if x < nm0.len() {
            assert(ct1[x] == ct0[x]);
        } else {
            assert(nm[x] == c) by {
                assert(nm.contains(nm[x]));
                if nm[x] != c {
                    assert(nm0.contains(nm[x]));
                    let k = choose|k: int| 0 <= k < nm0.len() && nm0[k] == nm[x];
                    assert(nm[k] == nm[x]);
                }
            }
            assert(!nm0.contains(c)) by {
                if nm0.contains(c) {
                    let k = choose|k: int| 0 <= k < nm0.len() && nm0[k] == c;
                    assert(nm[k] == nm[x]);
                }
            }
            if contents_map(rules).dom().contains(nm[x]) {
                lemma_contents_dom_mentioned(rules, nm[x]);
            }
        }
    }
    assert forall|x: int| 0 <= x < nm.len() && #[trigger] ct1[x] is Some implies items_named(
        nm,
        ct1[x]->0@,
    ) == contents_map(rules)[nm[x]] by {
        if x < nm0.len() {
            assert(ct1[x] == ct0[x]);
            assert(items_named(nm, ct1[x]->0@) =~= items_named(nm0, ct0[x]->0@));
        }
    }
    assert forall|d: Seq<u8>|
        #[trigger] nm.contains(d) <==> mentioned(rules, d) || h0 == Some(d) || (h0 is Some
            && lists_colour(extra, d)) || d == c by {
        assert(nm0.contains(d) <==> mentioned(rules, d) || h0 == Some(d) || (h0 is Some
            && lists_colour(extra, d)));
    }
}

/// Adds one rule to the table.
fn add_rule(
    names: &mut Vec<Vec<u8>>,
    inside: &mut Vec<Vec<usize>>,
    contents: &mut Vec<Option<Vec<(i32, usize)>>>,
    r: &RuleRef,
    Ghost(rules): Ghost<Seq<SpecRule>>,
)
    requires
        table_ok(names_of(old(names)@), old(inside)@, old(contents)@),
        table_matches(names_of(old(names)@), old(inside)@, old(contents)@, rules, None, seq![]),
    ensures
        table_ok(names_of(final(names)@), final(inside)@, final(contents)@),
        table_matches(
            names_of(final(names)@),
            final(inside)@,
            final(contents)@,
            rules.push(rule_ref_view(*r)),
            None,
            seq![],
        ),
{
    let ghost rv = rule_ref_view(*r);
    let ghost h0 = r.colour@;
    let ghost nm0 = names_of(names@);
    let ghost in0 = inside@;
    let ghost ct0 = contents@;
    let rid = intern_keeping(
        names,
        inside,
        contents,
        r.colour,
        Ghost(rules),
        Ghost(Option::<Seq<u8>>::None),
        Ghost(Seq::<SpecItem>::empty()),
    );
    proof {
        lemma_matches_after_intern(
            nm0,
            in0,
            ct0,
            names_of(names@),
            inside@,
            contents@,
            rules,
            None,
            seq![],
            h0,
        );
        assert(table_matches(
            names_of(names@),
            inside@,
            contents@,
            rules,
            Some(h0),
            seq![],
        ));
    }
    match &r.contents {
        None => {
            proof {
                let rp = rules.push(rv);
                assert(rp.drop_last() =~= rules);
                assert(contents_map(rp) == contents_map(rules));
                assert forall|d: Seq<u8>| #[trigger]
                    names_of(names@).contains(d) <==> mentioned(rp, d) by {
                    lemma_mentioned_push(rules, rv, d);
                }
                assert forall|x: int, h: int|
                    0 <= x < names_of(names@).len() && 0 <= h < names_of(names@).len() implies (
                    #[trigger] inside@[x]@.contains(h as usize) <==> direct_holder(
                        rp,
                        names_of(names@)[h],
                        names_of(names@)[x],
                    )) by {
                    lemma_direct_holder_push(rules, rv, names_of(names@)[h], names_of(names@)[x]);
                }
            }
        },
        Some(items) => {
            let ghost iv = rv.1->0;
            assert(iv == items@.map_values(|it: (i32, &[u8])| (it.0, it.1@)));
            let mut ids: Vec<(i32, usize)> = Vec::new();
            let mut j: usize = 0;
            while j < items.len()
                invariant
                    iv == items@.map_values(|it: (i32, &[u8])| (it.0, it.1@)),
                    j <= items.len(),
                    table_ok(names_of(names@), inside@, contents@),
                    table_matches(
                        names_of(names@),
                        inside@,
                        contents@,
                        rules,
                        Some(h0),
                        iv.subrange(0, j as int),
                    ),
                    rid < names.len(),
                    names_of(names@)[rid as int] == h0,
                    ids@.len() == j,
                    forall|k: int| 0 <= k < j ==> #[trigger] ids@[k].1 < names.len(),
                    items_named(names_of(names@), ids@) == iv.subrange(0, j as int),
                decreases items.len() - j,
            {
                let (n, col) = items[j];
                let ghost extra = iv.subrange(0, j as int);
                let ghost nm1 = names_of(names@);
                let ghost in1 = inside@;
                let ghost ct1 = contents@;
                let xid = intern_keeping(
                    names,
                    inside,
                    contents,
                    col,
                    Ghost(rules),
                    Ghost(Some(h0)),
                    Ghost(extra),
                );
                proof {
                    lemma_matches_after_intern(
                        nm1,
                        in1,
                        ct1,
                        names_of(names@),
                        inside@,
                        contents@,
                        rules,
                        Some(h0),
                        extra,
                        col@,
                    );
                }
                let ghost in2 = inside@;
                inside[xid].push(rid);
                proof {
                    let nm = names_of(names@);
                    let item: SpecItem = (n, col@);
                    assert(iv[j as int] == item);
                    assert(iv.subrange(0, j + 1) =~= extra.push(item));
                    assert forall|d: Seq<u8>|
                        #[trigger] nm.contains(d) <==> mentioned(rules, d) || Some(h0) == Some(d)
                            || lists_colour(extra.push(item), d) by {
                        lemma_lists_colour_push(extra, item, d);
                    }
                    assert forall|x: int, h: int|
                        0 <= x < nm.len() && 0 <= h < nm.len() implies (
                        #[trigger] inside@[x]@.contains(h as usize) <==> direct_holder(
                            rules,
                            nm[h],
                            nm[x],
                        ) || (Some(h0) == Some(nm[h]) && lists_colour(extra.push(item), nm[x]))) by {
                        lemma_lists_colour_push(extra, item, nm[x]);
                        if x == xid {
                            assert(inside@[x]@ == in2[x]@.push(rid));
                            if h as usize == rid {
                                assert(inside@[x]@[in2[x]@.len() as int] == rid);
                            }
                            if inside@[x]@.contains(h as usize) && h as usize != rid {
                                let k = choose|k: int|
                                    0 <= k < inside@[x]@.len() && inside@[x]@[k] == h as usize;
                                assert(in2[x]@[k] == h as usize);
                            }
                            if in2[x]@.contains(h as usize) {
                                let k = choose|k: int|
                                    0 <= k < in2[x]@.len() && in2[x]@[k] == h as usize;
                                assert(inside@[x]@[k] == h as usize);
                            }
                            if h0 == nm[h] {
                                assert(nm[rid as int] == h0);
                                assert(nm.no_duplicates());
                                assert(h == rid);
                            }
                        } else {
                            assert(inside@[x] == in2[x]);
                            assert(nm[x] != nm[xid as int]);
                        }
                    }
                    assert forall|x: int, k: int|
                        0 <= x < inside@.len() && 0 <= k < inside@[x]@.len() implies #[trigger] inside@[x]@[k]
                        < nm.len() by {
                        if x == xid && k == in2[x]@.len() {
                        } else {
                            assert(inside@[x]@[k] == in2[x]@[k]);
                        }
                    }
                }
                let ghost ids0 = ids@;
                ids.push((n, xid));
                proof {
                    let nm = names_of(names@);
                    assert(items_named(nm, ids0) =~= items_named(nm1, ids0));
                    assert(items_named(nm, ids@) =~= items_named(nm, ids0).push((n, col@)));
                }
                j = j + 1;
            }
            proof {
                assert(iv.subrange(0, items.len() as int) =~= iv);
            }
            let ghost ct_before = contents@;
            contents.set(rid, Some(ids));
            proof {
                let nm = names_of(names@);
                let rp = rules.push(rv);
                assert(rp.drop_last() =~= rules);
                assert(contents_map(rp) == contents_map(rules).insert(h0, iv));
                assert forall|d: Seq<u8>| #[trigger] nm.contains(d) <==> mentioned(rp, d) by {
                    lemma_mentioned_push(rules, rv, d);
                }
                assert forall|x: int, h: int|
                    0 <= x < nm.len() && 0 <= h < nm.len() implies (
                    #[trigger] inside@[x]@.contains(h as usize) <==> direct_holder(rp, nm[h], nm[x])) by {
                    lemma_direct_holder_push(rules, rv, nm[h], nm[x]);
                }
                assert forall|x: int|
                    0 <= x < nm.len() implies (#[trigger] contents@[x] is Some
                    <==> contents_map(rp).dom().contains(nm[x])) by {
                    if x != rid {
                        assert(contents@[x] == ct_before[x]);
                        assert(nm[x] != h0);
                    }
                }
                assert forall|x: int|
                    0 <= x < nm.len() && #[trigger] contents@[x] is Some implies items_named(
                    nm,
                    contents@[x]->0@,
                ) == contents_map(rp)[nm[x]] by {
                    if x != rid {
                        assert(contents@[x] == ct_before[x]);
                        assert(nm[x] != h0);
                    }
                }
                assert forall|x: int, k: int|
                    0 <= x < contents@.len() && contents@[x] is Some && 0 <= k < contents@[x]->0@.len()
                        implies #[trigger] contents@[x]->0@[k].1 < nm.len() by {
                    if x != rid {
                        assert(contents@[x] == ct_before[x]);
                    }
                }
            }
        },
    }
}

proof fn lemma_listed_mentioned(rules: Seq<SpecRule>, c: Seq<u8>)
    requires
        listed_inside(rules, c),
    ensures
        mentioned(rules, c),
        exists|h: Seq<u8>| #[trigger] direct_holder(rules, h, c) && mentioned(rules, h),
{
    let (i, j) = choose|i: int, j: int| #[trigger] lists_item(rules, i, j) && item_colour(rules, i, j) == c;
    assert(direct_holder(rules, rules[i].0, c));
    lemma_holder_mentioned(rules, rules[i].0, c);
}

impl Lookups {
    /// Builds both lookups from the rules, in order.
    pub fn from_rules(rules: &Vec<RuleRef>) -> (l: Lookups)
        ensures
            l.wf(),
            l.inside_view() == inside_map(rule_refs_view(rules@)),
            l.contents_view() == contents_map(rule_refs_view(rules@)),
            forall|c: Seq<u8>|
                #[trigger] l.names_view().contains(c) <==> mentioned(rule_refs_view(rules@), c),
            l.colour_count() == colour_total(rule_refs_view(rules@)),
    {
        let ghost rs = rule_refs_view(rules@);
        let mut names: Vec<Vec<u8>> = Vec::new();
        let mut inside: Vec<Vec<usize>> = Vec::new();
        let mut contents: Vec<Option<Vec<(i32, usize)>>> = Vec::new();
        proof {
            assert(names_of(names@) =~= Seq::<Seq<u8>>::empty());
            assert(rs.subrange(0, 0) =~= Seq::<SpecRule>::empty());
            assert(contents_map(rs.subrange(0, 0)) == Map::<Seq<u8>, Seq<SpecItem>>::empty());
            assert forall|c: Seq<u8>|
                #[trigger] names_of(names@).contains(c) <==> mentioned(rs.subrange(0, 0), c)
                    || Option::<Seq<u8>>::None == Some(c) || (Option::<Seq<u8>>::None is Some
                    && lists_colour(Seq::<SpecItem>::empty(), c)) by {
                if mentioned(rs.subrange(0, 0), c) {
                    if listed_inside(rs.subrange(0, 0), c) {
                        let (i, j) = choose|i: int, j: int|
                            #[trigger] lists_item(rs.subrange(0, 0), i, j) && item_colour(
                                rs.subrange(0, 0),
                                i,
                                j,
                            ) == c;
                    }
                }
            }
        }
        let mut i: usize = 0;
        while i < rules.len()
            invariant
                rs == rule_refs_view(rules@),
                i <= rules.len(),
                table_ok(names_of(names@), inside@, contents@),
                table_matches(
                    names_of(names@),
                    inside@,
                    contents@,
                    rs.subrange(0, i as int),
                    None,
                    seq![],
                ),
            decreases rules.len() - i,
        {
            add_rule(
                &mut names,
                &mut inside,
                &mut contents,
                &rules[i],
                Ghost(rs.subrange(0, i as int)),
            );
            proof {
                assert(rs.subrange(0, i + 1) =~= rs.subrange(0, i as int).push(
                    rule_ref_view(rules@[i as int]),
                ));
            }
            i = i + 1;
        }
        proof {
            assert(rs.subrange(0, rules.len() as int) =~= rs);
        }
        let l = Lookups { names, inside, contents };
        proof {
            let nm = names_of(l.names@);
            assert(l.names_view() == nm);
            assert forall|c: Seq<u8>| nm.contains(c) implies 0 <= #[trigger] l.id_of(c) < nm.len()
                && nm[l.id_of(c)] == c by {
                let x = choose|x: int| 0 <= x < nm.len() && nm[x] == c;
            }
            assert forall|c: Seq<u8>|
                #[trigger] l.inside_view().dom().contains(c) <==> inside_map(rs).dom().contains(c) by {
                if nm.contains(c) {
                    let x = l.id_of(c);
                    if l.inside@[x]@.len() > 0 {
                        let hi: int = l.inside@[x]@[0] as int;
                        assert(0 <= hi < nm.len());
                        assert(l.inside@[x]@.contains(hi as usize));
                        assert(direct_holder(rs, nm[hi], nm[x]));
                        let h = hi as usize;
                        lemma_holder_mentioned(rs, nm[h as int], nm[x]);
                        let (i, j) = choose|i: int, j: int|
                            #[trigger] lists_item(rs, i, j) && item_colour(rs, i, j) == c
                                && rs[i].0 == nm[h as int];
                        assert(listed_inside(rs, c));
                    }
                }
                if listed_inside(rs, c) {
                    lemma_listed_mentioned(rs, c);
                    let h = choose|h: Seq<u8>| #[trigger] direct_holder(rs, h, c) && mentioned(rs, h);
                    assert(nm.contains(h));
                    let hh = choose|hh: int| 0 <= hh < nm.len() && nm[hh] == h;
                    let x = l.id_of(c);
                    assert(l.inside@[x]@.contains(hh as usize));
                }
            }
            assert forall|c: Seq<u8>| #[trigger]
                l.inside_view().dom().contains(c) implies l.inside_view()[c] =~= inside_map(rs)[c] by {
                let x = l.id_of(c);
                assert forall|h: Seq<u8>| #[trigger]
                    l.inside_view()[c].contains(h) <==> inside_map(rs)[c].contains(h) by {
                    if l.inside_view()[c].contains(h) {
                        let k = choose|k: int|
                            0 <= k < l.inside[x]@.len() && #[trigger] l.names_view()[l.inside[x]@[k] as int] == h;
                        let hi: int = l.inside@[x]@[k] as int;
                        assert(0 <= hi < nm.len());
                        assert(l.inside@[x]@.contains(hi as usize));
                        assert(direct_holder(rs, nm[hi], nm[x]));
                        assert(nm[hi] == h);
                    }
                    if direct_holder(rs, h, c) {
                        lemma_holder_mentioned(rs, h, c);
                        assert(nm.contains(h));
                        assert(nm.contains(c));
                        assert(0 <= x < nm.len() && nm[x] == c);
                        let hh = choose|hh: int| 0 <= hh < nm.len() && nm[hh] == h;
                        assert(l.inside@[x]@.contains(hh as usize));
                        let k = choose|k: int| 0 <= k < l.inside@[x]@.len() && l.inside@[x]@[k] == hh as usize;
                        assert(l.names_view()[l.inside[x]@[k] as int] == h);
                    }
                }
            }
            assert(l.inside_view() =~= inside_map(rs));
            assert forall|c: Seq<u8>|
                #[trigger] l.contents_view().dom().contains(c) <==> contents_map(rs).dom().contains(c) by {
                if contents_map(rs).dom().contains(c) {
                    lemma_contents_dom_mentioned(rs, c);
                    assert(mentioned(rs, c));
                }
            }
            assert forall|c: Seq<u8>| #[trigger]
                l.contents_view().dom().contains(c) implies l.contents_view()[c] == contents_map(rs)[c] by {
                let x = l.id_of(c);
                assert(l.contents_view()[c] =~= items_named(nm, l.contents@[x]->0@));
            }
            assert(l.contents_view() =~= contents_map(rs));
            assert(nm.to_set() =~= Set::new(|c: Seq<u8>| mentioned(rs, c)));
            nm.unique_seq_to_set();
        }
        l
    }
}

impl Lookups {
    /// The adjacency lists of the "is inside" relation, as a graph.
    closed spec fn graph(&self) -> Seq<Seq<usize>> {
        self.inside.deep_view()
    }

    proof fn lemma_graph(&self)
        requires
            self.wf(),
        ensures
            self.graph().len() == self.names.len(),
            forall|u: int| 0 <= u < self.names.len() ==> #[trigger] self.graph()[u] == self.inside[u]@,
            well_formed(self.graph()),
            forall|c: Seq<u8>|
                self.names_view().contains(c) ==> 0 <= #[trigger] self.id_of(c) < self.names.len()
                    && self.names_view()[self.id_of(c)] == c,
            forall|x: int|
                0 <= x < self.names.len() ==> #[trigger] self.id_of(self.names_view()[x]) == x,
    {
        assert forall|u: int| 0 <= u < self.names.len() implies #[trigger] self.graph()[u]
            == self.inside[u]@ by {
            assert(self.graph()[u] =~= self.inside[u]@);
        }
        assert forall|c: Seq<u8>| self.names_view().contains(c) implies 0 <= #[trigger] self.id_of(c)
            < self.names.len() && self.names_view()[self.id_of(c)] == c by {
            let x = choose|x: int| 0 <= x < self.names_view().len() && self.names_view()[x] == c;
        }
        assert forall|x: int| 0 <= x < self.names.len() implies #[trigger] self.id_of(
            self.names_view()[x],
        ) == x by {
            assert(self.names_view().contains(self.names_view()[x]));
            let y = self.id_of(self.names_view()[x]);
            assert(self.names_view().no_duplicates());
        }
    }

    /// A walk up the "is inside" graph from one of the colours directly
    /// holding `c` is a chain of holders starting at `c`.
    proof fn lemma_walk_to_chain(&self, c: Seq<u8>, q: Seq<usize>)
        requires
            self.wf(),
            self.names_view().contains(c),
            is_walk(self.graph(), q),
            self.inside[self.id_of(c)]@.contains(q[0]),
        ensures
            is_holder_chain(
                self.inside_view(),
                seq![c] + q.map_values(|t: usize| self.names_view()[t as int]),
            ),
            (seq![c] + q.map_values(|t: usize| self.names_view()[t as int]))[0] == c,
            q.last() < self.names.len(),
            (seq![c] + q.map_values(|t: usize| self.names_view()[t as int])).last()
                == self.names_view()[q.last() as int],
    {
        self.lemma_graph();
        let nm = self.names_view();
        let m = self.inside_view();
        let p = seq![c] + q.map_values(|t: usize| nm[t as int]);
        let id = self.id_of(c);
        // every node of the walk is a colour of the table
        assert forall|i: int| 0 <= i < q.len() implies #[trigger] q[i] < self.names.len() by {
            if i == 0 {
                let k = choose|k: int| 0 <= k < self.inside[id]@.len() && self.inside[id]@[k] == q[0];
            } else {
                assert(has_edge(self.graph(), q[i - 1], q[i]));
                let u = q[i - 1];
                let k = choose|k: int| 0 <= k < self.graph()[u as int].len() && self.graph()[u as int][k] == q[i];
            }
        }
        assert forall|i: int, j: int|
            #![trigger p[i], p[j]]
            0 <= i && j == i + 1 && j < p.len() implies holds_step(m, p[i], p[j]) by {
            if i == 0 {
                let k = choose|k: int| 0 <= k < self.inside[id]@.len() && self.inside[id]@[k] == q[0];
                assert(p[j] == nm[q[0] as int]);
                assert(nm[self.inside[self.id_of(c)]@[k] as int] == p[j]);
            } else {
                let u = q[i - 1];
                let v = q[i];
                assert(has_edge(self.graph(), q[i - 1], q[j - 1]));
                assert(p[i] == nm[u as int] && p[j] == nm[v as int]);
                assert(self.id_of(nm[u as int]) == u);
                let k = choose|k: int| 0 <= k < self.graph()[u as int].len() && self.graph()[u as int][k] == v;
                assert(self.inside[u as int]@[k] == v);
                assert(nm[self.inside[self.id_of(p[i])]@[k] as int] == p[j]);
            }
        }
    }

    /// A chain of holders starting at `c` gives a walk up the "is inside"
    /// graph from a colour directly holding `c` to the last colour.
    proof fn lemma_chain_to_walk(&self, c: Seq<u8>, p: Seq<Seq<u8>>)
        requires
            self.wf(),
            is_holder_chain(self.inside_view(), p),
            p[0] == c,
        ensures
            self.names_view().contains(c),
            self.names_view().contains(p.last()),
            reached_from(self.graph(), self.inside[self.id_of(c)]@, self.id_of(p.last()) as usize),
        decreases p.len(),
    {
        self.lemma_graph();
        let nm = self.names_view();
        let m = self.inside_view();
        assert(holds_step(m, p[0], p[1]));
        let id = self.id_of(c);
        let seeds = self.inside[id]@;
        if p.len() == 2 {
            let k = choose|k: int| 0 <= k < seeds.len() && #[trigger] nm[seeds[k] as int] == p[1];
            assert(nm.contains(p[1]));
            let t = seeds[k];
            assert(self.id_of(p[1]) == t as int);
            crate::graph::lemma_walk_single(self.graph(), t);
            assert(reaches(self.graph(), seeds[k], t));
        } else {
            let pre = p.drop_last();
            assert forall|i: int, j: int|
                #![trigger pre[i], pre[j]]
                0 <= i && j == i + 1 && j < pre.len() implies holds_step(m, pre[i], pre[j]) by {
                assert(pre[i] == p[i] && pre[j] == p[j]);
            }
            self.lemma_chain_to_walk(c, pre);
            let u = self.id_of(pre.last()) as usize;
            let si = choose|si: int| 0 <= si < seeds.len() && #[trigger] reaches(self.graph(), seeds[si], u);
            let q = choose|q: Seq<usize>| #[trigger] is_walk(self.graph(), q) && q[0] == seeds[si] && q.last() == u;
            let a = p[p.len() - 2];
            let b = p.last();
            assert(a == pre.last());
            assert(holds_step(m, a, b));
            let k = choose|k: int| 0 <= k < self.inside[self.id_of(a)]@.len() && #[trigger] nm[self.inside[self.id_of(a)]@[k] as int] == b;
            let v = self.inside[self.id_of(a)]@[k];
            assert(nm.contains(b));
            assert(self.id_of(b) == v as int);
            assert(self.graph()[u as int].contains(v));
            crate::graph::lemma_walk_push(self.graph(), q, v);
            assert(reaches(self.graph(), seeds[si], v));
        }
    }

    /// The colours that hold a bag of colour `c`, directly or through bags
    /// inside bags, each once.
    pub fn colours_holding(&self, c: &[u8]) -> (r: Vec<Vec<u8>>)
        requires
            self.wf(),
        ensures
            names_of(r@).no_duplicates(),
            forall|y: Seq<u8>|
                #[trigger] names_of(r@).contains(y) <==> holds_eventually(self.inside_view(), c@, y),
    {
        proof {
            self.lemma_graph();
        }
        let mut found: Option<usize> = None;
        let mut x: usize = 0;
        while x < self.names.len()
            invariant
                self.wf(),
                x <= self.names.len(),
                found is None ==> forall|y: int| 0 <= y < x ==> self.names_view()[y] != c@,
                found matches Some(f) ==> f < self.names.len() && self.names_view()[f as int] == c@,
            ensures
                found is None ==> forall|y: int| 0 <= y < self.names.len() ==> self.names_view()[y] != c@,
                found matches Some(f) ==> f < self.names.len() && self.names_view()[f as int] == c@,
            decreases self.names.len() - x,
        {
            if bytes_eq(self.names[x].as_slice(), c) {
                found = Some(x);
                break;
            }
            x = x + 1;
        }
        let mut out: Vec<Vec<u8>> = Vec::new();
        match found {
            None => {
                proof {
                    assert(!self.names_view().contains(c@));
                    assert forall|y: Seq<u8>|
                        #[trigger] names_of(out@).contains(y) <==> holds_eventually(self.inside_view(), c@, y) by {
                        if holds_eventually(self.inside_view(), c@, y) {
                            let p = choose|p: Seq<Seq<u8>>| #[trigger] is_holder_chain(self.inside_view(), p) && p[0] == c@ && p.last() == y;
                            self.lemma_chain_to_walk(c@, p);
                        }
                    }
                    assert(names_of(out@) =~= Seq::<Seq<u8>>::empty());
                }
                out
            },
            Some(id) => {
                proof {
                    assert(self.id_of(c@) == id as int);
                }
                let mut seeds: Vec<usize> = Vec::new();
                let mut k: usize = 0;
                while k < self.inside[id].len()
                    invariant
                        self.wf(),
                        id < self.names.len(),
                        k <= self.inside[id as int].len(),
                        seeds@ == self.inside[id as int]@.subrange(0, k as int),
                    decreases self.inside[id as int].len() - k,
                {
                    seeds.push(self.inside[id][k]);
                    k = k + 1;
                    proof {
                        assert(seeds@ =~= self.inside[id as int]@.subrange(0, k as int));
                    }
                }
                proof {
                    assert(seeds@ =~= self.inside[id as int]@);
                    assert(self.inside.deep_view() == self.graph());
                }
                let visited = reachable_from(&self.inside, &seeds);
                let mut t: usize = 0;
                while t < self.names.len()
                    invariant
                        self.wf(),
                        id < self.names.len(),
                        self.id_of(c@) == id as int,
                        self.names_view()[id as int] == c@,
                        seeds@ == self.inside[id as int]@,
                        visited.len() == self.names.len(),
                        forall|u: int|
                            0 <= u < self.names.len() ==> (#[trigger] visited[u] <==> reached_from(
                                self.graph(),
                                seeds@,
                                u as usize,
                            )),
                        t <= self.names.len(),
                        names_of(out@).no_duplicates(),
                        forall|y: Seq<u8>|
                            #[trigger] names_of(out@).contains(y) <==> exists|u: int|
                                0 <= u < t && visited[u] && self.names_view()[u] == y,
                    decreases self.names.len() - t,
                {
                    if visited[t] {
                        let mut copy: Vec<u8> = Vec::new();
                        push_bytes(&mut copy, self.names[t].as_slice());
                        let ghost before = names_of(out@);
                        out.push(copy);
                        proof {
                            let nm = self.names_view();
                            assert(names_of(out@) =~= before.push(nm[t as int]));
                            assert forall|y: Seq<u8>|
                                #[trigger] names_of(out@).contains(y) <==> exists|u: int|
                                    0 <= u < t + 1 && visited[u] && nm[u] == y by {
                                lemma_contains_push(before, nm[t as int], y);
                                if exists|u: int| 0 <= u < t + 1 && visited[u] && nm[u] == y {
                                    let u = choose|u: int| 0 <= u < t + 1 && visited[u] && nm[u] == y;
                                    if u < t {
                                        assert(before.contains(y));
                                    }
                                }
                            }
                            assert forall|a: int, b: int|
                                0 <= a < names_of(out@).len() && 0 <= b < names_of(out@).len() && a != b
                                    implies names_of(out@)[a] != names_of(out@)[b] by {
                                if b == before.len() {
                                    assert(before.contains(before[a]));
                                    let u = choose|u: int| 0 <= u < t && visited[u] && nm[u] == before[a];
                                    assert(nm.no_duplicates());
                                } else if a == before.len() {
                                    assert(before.contains(before[b]));
                                    let u = choose|u: int| 0 <= u < t && visited[u] && nm[u] == before[b];
                                    assert(nm.no_duplicates());
                                }
                            }
                        }
                    }
                    t = t + 1;
                }
                proof {
                    let nm = self.names_view();
                    assert forall|y: Seq<u8>|
                        #[trigger] names_of(out@).contains(y) <==> holds_eventually(self.inside_view(), c@, y) by {
                        if names_of(out@).contains(y) {
                            let u = choose|u: int| 0 <= u < self.names.len() && visited[u] && nm[u] == y;
                            assert(reached_from(self.graph(), seeds@, u as usize));
                            let si = choose|si: int| 0 <= si < seeds@.len() && #[trigger] reaches(self.graph(), seeds@[si], u as usize);
                            let q = choose|q: Seq<usize>| #[trigger] is_walk(self.graph(), q) && q[0] == seeds@[si] && q.last() == u as usize;
                            assert(self.inside[self.id_of(c@)]@.contains(q[0]));
                            self.lemma_walk_to_chain(c@, q);
                            let p = seq![c@] + q.map_values(|t: usize| nm[t as int]);
                            assert(is_holder_chain(self.inside_view(), p) && p[0] == c@ && p.last() == y);
                        }
                        if holds_eventually(self.inside_view(), c@, y) {
                            let p = choose|p: Seq<Seq<u8>>| #[trigger] is_holder_chain(self.inside_view(), p) && p[0] == c@ && p.last() == y;
                            self.lemma_chain_to_walk(c@, p);
                            let u = self.id_of(y);
                            assert(visited[u]);
                        }
                    }
                }
                out
            },
        }
    }
}

proof fn lemma_sum_none_extends(m: Map<Seq<u8>, Seq<SpecItem>>, items: Seq<SpecItem>, k: int, depth: nat)
    requires
        0 <= k <= items.len(),
        sum_within(m, items.subrange(0, k), depth) is None,
    ensures
        sum_within(m, items, depth) is None,
    decreases items.len() - k,
{
    if k < items.len() {
        assert(items.subrange(0, k + 1).drop_last() =~= items.subrange(0, k));
        lemma_sum_none_extends(m, items, k + 1, depth);
    } else {
        assert(items.subrange(0, k) =~= items);
    }
}

impl Lookups {
    proof fn lemma_contents_entry(&self, id: int)
        requires
            self.wf(),
            0 <= id < self.names.len(),
        ensures
            self.contents_view().dom().contains(self.names_view()[id]) <==> self.contents[id] is Some,
            self.contents[id] is Some ==> self.contents_view()[self.names_view()[id]] == items_named(
                self.names_view(),
                self.contents[id]->0@,
            ),
    {
        self.lemma_graph();
        assert(self.names_view().contains(self.names_view()[id]));
        if self.contents[id] is Some {
            assert(self.contents_view()[self.names_view()[id]] =~= items_named(
                self.names_view(),
                self.contents[id]->0@,
            ));
        }
    }

    /// The count for the colour at `id`, at most `depth` levels down.
    fn count_from(&self, id: usize, depth: u128) -> (r: Option<i32>)
        requires
            self.wf(),
            id < self.names.len(),
        ensures
            match r {
                Some(v) => count_within(self.contents_view(), self.names_view()[id as int], depth as nat)
                    == Some(v as int),
                None => count_within(self.contents_view(), self.names_view()[id as int], depth as nat) is None,
            },
        decreases depth,
    {
        proof {
            self.lemma_contents_entry(id as int);
        }
        if depth == 0 {
            return None;
        }
        match &self.contents[id] {
            None => Some(0),
            Some(items) => {
                let ghost m = self.contents_view();
                let ghost iv = items_named(self.names_view(), items@);
                let mut acc: i32 = 0;
                let mut j: usize = 0;
                proof {
                    assert(iv.subrange(0, 0) =~= Seq::<SpecItem>::empty());
                }
                while j < items.len()
                    invariant
                        self.wf(),
                        id < self.names.len(),
                        depth > 0,
                        self.contents[id as int] == Some(*items),
                        m == self.contents_view(),
                        iv == items_named(self.names_view(), items@),
                        j <= items.len(),
                        sum_within(m, iv.subrange(0, j as int), (depth - 1) as nat) == Some(acc as int),
                    decreases items.len() - j,
                {
                    let (n, d) = items[j];
                    proof {
                        assert(self.contents[id as int]->0@[j as int].1 < self.names.len());
                        assert(iv.subrange(0, j + 1).drop_last() =~= iv.subrange(0, j as int));
                        assert(iv.subrange(0, j + 1).last() == (n, self.names_view()[d as int]));
                    }
                    let inner = match self.count_from(d, depth - 1) {
                        Some(v) => v,
                        None => {
                            proof {
                                lemma_sum_none_extends(m, iv, j + 1, (depth - 1) as nat);
                            }
                            return None;
                        },
                    };
                    let bags = match inner.checked_add(1) {
                        Some(v) => v,
                        None => {
                            proof {
                                lemma_sum_none_extends(m, iv, j + 1, (depth - 1) as nat);
                            }
                            return None;
                        },
                    };
                    let total = match n.checked_mul(bags) {
                        Some(v) => v,
                        None => {
                            proof {
                                lemma_sum_none_extends(m, iv, j + 1, (depth - 1) as nat);
                            }
                            return None;
                        },
                    };
                    acc = match acc.checked_add(total) {
                        Some(v) => v,
                        None => {
                            proof {
                                lemma_sum_none_extends(m, iv, j + 1, (depth - 1) as nat);
                            }
                            return None;
                        },
                    };
                    j = j + 1;
                }
                proof {
                    assert(iv.subrange(0, items.len() as int) =~= iv);
                }
                Some(acc)
            },
        }
    }
}

/// The number of bags inside one bag of colour `c`, counted through the
/// "contains" lookup no deeper than one level more than there are colours:
/// `None` when that depth is not enough (the rules go round in a circle) or
/// a step of the count leaves the range of `i32`.
pub open spec fn bags_inside(l: Lookups, c: Seq<u8>) -> Option<int> {
    count_within(l.contents_view(), c, l.colour_count() + 1)
}

/// A count that a depth allows is the same at any greater depth.
proof fn lemma_count_deeper(m: Map<Seq<u8>, Seq<SpecItem>>, c: Seq<u8>, d1: nat, d2: nat)
    requires
        d1 <= d2,
        count_within(m, c, d1) is Some,
    ensures
        count_within(m, c, d2) == count_within(m, c, d1),
    decreases d1, 0nat,
{
    if m.dom().contains(c) {
        lemma_sum_deeper(m, m[c], (d1 - 1) as nat, (d2 - 1) as nat);
    }
}

/// A sum that a depth allows is the same at any greater depth.
proof fn lemma_sum_deeper(m: Map<Seq<u8>, Seq<SpecItem>>, items: Seq<SpecItem>, d1: nat, d2: nat)
    requires
        d1 <= d2,
        sum_within(m, items, d1) is Some,
    ensures
        sum_within(m, items, d2) == sum_within(m, items, d1),
    decreases d1, items.len(),
{
    if items.len() > 0 {
        lemma_sum_deeper(m, items.drop_last(), d1, d2);
        lemma_count_deeper(m, items.last().1, d1, d2);
    }
}

/// Two lookups with the same contents count the same number of bags inside
/// a colour wherever both define the count; and where the first defines it,
/// a lookup with at least as many colours defines it too.
pub proof fn lemma_counts_agree(l1: Lookups, l2: Lookups, c: Seq<u8>)
    requires
        l1.contents_view() == l2.contents_view(),
    ensures
        bags_inside(l1, c) is Some && l1.colour_count() <= l2.colour_count() ==> bags_inside(l2, c)
            == bags_inside(l1, c),
        bags_inside(l1, c) is Some && bags_inside(l2, c) is Some ==> bags_inside(l1, c)
            == bags_inside(l2, c),
{
    let m = l1.contents_view();
    let f1 = l1.colour_count() + 1;
    let f2 = l2.colour_count() + 1;
    if bags_inside(l1, c) is Some && f1 <= f2 {
        lemma_count_deeper(m, c, f1, f2);
    }
    if bags_inside(l2, c) is Some && f2 <= f1 {
        lemma_count_deeper(m, c, f2, f1);
    }
}

impl Lookups {
    /// The number of bags inside one bag of colour `c`, or `None` where
    /// `bags_inside` is `None`.
    pub fn count_inside(&self, c: &[u8]) -> (r: Option<i32>)
        requires
            self.wf(),
        ensures
            match r {
                Some(v) => bags_inside(*self, c@) == Some(v as int),
                None => bags_inside(*self, c@) is None,
            },
    {
        proof {
            self.lemma_graph();
        }
        let depth: u128 = self.names.len() as u128 + 1;
        let mut x: usize = 0;
        while x < self.names.len()
            invariant
                self.wf(),
                x <= self.names.len(),
                depth == self.names.len() + 1,
                forall|y: int| 0 <= y < x ==> self.names_view()[y] != c@,
            decreases self.names.len() - x,
        {
            if bytes_eq(self.names[x].as_slice(), c) {
                return self.count_from(x, depth);
            }
            x = x + 1;
        }
        proof {
            assert(!self.names_view().contains(c@));
            assert(!self.contents_view().dom().contains(c@));
        }
        Some(0)
    }
}
} // verus!
