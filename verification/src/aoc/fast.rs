//! The reader that borrows colours from the text. An item such as
//! `3 bright white bags` is split at its first space into the count and the
//! colour; the colour loses trailing `s`s and then trailing ` bag`s.

use vstd::prelude::*;
use vstd::string::StringSliceAdditionalSpecFns;
use crate::bytes::{
    ascii,
    ascii_bytes,
    bytes_eq,
    lines,
    lines_bytes,
    parse_i32,
    parse_i32_spec,
    split,
    split_bytes,
    split_once,
    split_once_bytes,
    trim_end_matches,
    trim_end_matches_bytes,
    views,
};
use crate::aoc::bags::{
    bags_inside,
    colour_total,
    contents_map,
    count_for,
    holders_of,
    holds_eventually,
    inside_map,
    names_of,
    rule_ref_view,
    rule_refs_view,
    shiny_gold,
    Lookups,
    RuleRef,
    SpecItem,
    SpecRule,
};

verus! {

/// The item written in `s`: a count, a space, then a colour from which
/// trailing `s`s and then trailing ` bag`s are removed.
pub open spec fn item_spec(s: Seq<u8>) -> Option<SpecItem> {
    match split_once(s, ascii(" "@)) {
        None => None,
        Some(parts) => match parse_i32_spec(parts.0) {
            None => None,
            Some(n) => Some(
                (n, trim_end_matches(trim_end_matches(parts.1, ascii("s"@)), ascii(" bag"@))),
            ),
        },
    }
}

/// The items written in `pieces`, if every piece is an item.
pub open spec fn items_spec(pieces: Seq<Seq<u8>>) -> Option<Seq<SpecItem>>
    decreases pieces.len(),
{
    if pieces.len() == 0 {
        Some(seq![])
    } else {
        match items_spec(pieces.drop_last()) {
            None => None,
            Some(v) => match item_spec(pieces.last()) {
                None => None,
                Some(it) => Some(v.push(it)),
            },
        }
    }
}

/// The rule written in line `s`: a colour, ` bags contain `, then either
/// `no other bags.` or items separated by `, ` (with trailing dots removed).
pub open spec fn rule_spec(s: Seq<u8>) -> Option<SpecRule> {
    match split_once(s, ascii(" bags contain "@)) {
        None => None,
        Some(parts) => if parts.1 == ascii("no other bags."@) {
            Some((parts.0, None))
        } else {
            match items_spec(split(trim_end_matches(parts.1, ascii("."@)), ascii(", "@))) {
                None => None,
                Some(items) => Some((parts.0, Some(items))),
            }
        },
    }
}

/// The rules written one per line, if every line is a rule.
pub open spec fn rules_spec(ls: Seq<Seq<u8>>) -> Option<Seq<SpecRule>>
    decreases ls.len(),
{
    if ls.len() == 0 {
        Some(seq![])
    } else {
        match rules_spec(ls.drop_last()) {
            None => None,
            Some(v) => match rule_spec(ls.last()) {
                None => None,
                Some(r) => Some(v.push(r)),
            },
        }
    }
}

/// The rules of a whole input text.
pub open spec fn input_spec(data: Seq<u8>) -> Option<Seq<SpecRule>> {
    rules_spec(lines(data))
}

/// One kind of bag inside another, with its colour borrowed from the text.
#[derive(PartialEq, Eq, Hash, Clone, Debug)]
pub struct BagItem<'a> {
    bag_color: &'a [u8],
    count: i32,
}

/// A rule, with its colours borrowed from the text.
#[derive(Clone, Debug)]
pub struct BagRule<'a> {
    bag_color: &'a [u8],
    contains: Option<Vec<BagItem<'a>>>,
}

/// The contents of a list of items.
pub open spec fn items_view(v: Seq<BagItem>) -> Seq<SpecItem> {
    v.map_values(|it: BagItem| it.spec_item())
}

/// The contents of a list of rules.
pub open spec fn rules_view(v: Seq<BagRule>) -> Seq<SpecRule> {
    v.map_values(|r: BagRule| r.spec_rule())
}

fn space() -> (v: &'static [u8])
    ensures
        v@ == ascii(" "@),
{
    proof {
        reveal_strlit(" ");
    }
    ascii_bytes(" ")
}

impl<'a> BagItem<'a> {
    /// The count and colour.
    pub closed spec fn spec_item(&self) -> SpecItem {
        (self.count, self.bag_color@)
    }

    /// Reads an item, or `None` where the text is no item.
    pub fn parse(line: &'a [u8]) -> (r: Option<BagItem<'a>>)
        ensures
            match r {
                Some(it) => item_spec(line@) == Some(it.spec_item()),
                None => item_spec(line@) is None,
            },
    {
        proof {
            reveal_strlit("s");
            reveal_strlit(" bag");
        }
        match split_once_bytes(line, space()) {
            None => None,
            Some((count_str, rest)) => match parse_i32(count_str) {
                None => None,
                Some(n) => {
                    let c1 = trim_end_matches_bytes(rest, ascii_bytes("s"));
                    let c2 = trim_end_matches_bytes(c1, ascii_bytes(" bag"));
                    Some(BagItem { bag_color: c2, count: n })
                },
            },
        }
    }

    /// Reads an item such as `3 bright white bags`.
    pub fn new(line: &'a str) -> (r: BagItem<'a>)
        requires
            item_spec(line.spec_bytes()) is Some,
        ensures
            item_spec(line.spec_bytes()) == Some(r.spec_item()),
    {
        match BagItem::parse(line.as_bytes()) {
            Some(it) => it,
            None => {
                proof {
                    assert(false);
                }
                BagItem { bag_color: line.as_bytes(), count: 0 }
            },
        }
    }
}

impl<'a> BagRule<'a> {
    /// The colour and contents.
    pub closed spec fn spec_rule(&self) -> SpecRule {
        (
            self.bag_color@,
            match self.contains {
                Some(v) => Some(items_view(v@)),
                None => None,
            },
        )
    }

    /// Reads a rule, or `None` where the line is no rule.
    pub fn parse(line: &'a [u8]) -> (r: Option<BagRule<'a>>)
        ensures
            match r {
                Some(rule) => rule_spec(line@) == Some(rule.spec_rule()),
                None => rule_spec(line@) is None,
            },
    {
        proof {
            reveal_strlit(" bags contain ");
            reveal_strlit("no other bags.");
            reveal_strlit(".");
            reveal_strlit(", ");
        }
        match split_once_bytes(line, ascii_bytes(" bags contain ")) {
            None => None,
            Some((bag_color, contents)) => {
                if bytes_eq(contents, ascii_bytes("no other bags.")) {
                    return Some(BagRule { bag_color, contains: None });
                }
                let trimmed = trim_end_matches_bytes(contents, ascii_bytes("."));
                let pieces = split_bytes(trimmed, ascii_bytes(", "));
                let ghost ps = views(pieces@);
                let mut items: Vec<BagItem<'a>> = Vec::new();
                let mut j: usize = 0;
                proof {
                    assert(ps.subrange(0, 0) =~= Seq::<Seq<u8>>::empty());
                    assert(items_view(items@) =~= Seq::<SpecItem>::empty());
                }
                while j < pieces.len()
                    invariant
                        ps == views(pieces@),
                        ps == split(trim_end_matches(contents@, ascii("."@)), ascii(", "@)),
                        contents@ != ascii("no other bags."@),
                        split_once(line@, ascii(" bags contain "@)) == Some((bag_color@, contents@)),
                        j <= pieces.len(),
                        items_spec(ps.subrange(0, j as int)) == Some(items_view(items@)),
                    decreases pieces.len() - j,
                {
                    proof {
                        assert(ps.subrange(0, j + 1).drop_last() =~= ps.subrange(0, j as int));
                        assert(ps.subrange(0, j + 1).last() == pieces@[j as int]@);
                    }
                    match BagItem::parse(pieces[j]) {
                        None => {
                            proof {
                                lemma_items_none_extends(ps, j + 1);
                            }
                            return None;
                        },
                        Some(it) => {
                            let ghost before = items_view(items@);
                            items.push(it);
                            proof {
                                assert(items_view(items@) =~= before.push(it.spec_item()));
                            }
                        },
                    }
                    j = j + 1;
                }
                proof {
                    assert(ps.subrange(0, pieces.len() as int) =~= ps);
                }
                Some(BagRule { bag_color, contains: Some(items) })
            },
        }
    }

    /// Reads a rule such as
    /// `light red bags contain 1 bright white bag, 2 muted yellow bags.`
    pub fn new(line: &'a str) -> (r: BagRule<'a>)
        requires
            rule_spec(line.spec_bytes()) is Some,
        ensures
            rule_spec(line.spec_bytes()) == Some(r.spec_rule()),
    {
        match BagRule::parse(line.as_bytes()) {
            Some(rule) => rule,
            None => {
                proof {
                    assert(false);
                }
                BagRule { bag_color: line.as_bytes(), contains: None }
            },
        }
    }

    /// The rule as the lookups read it.
    fn as_rule_ref(&self) -> (r: RuleRef<'a>)
        ensures
            rule_ref_view(r) == self.spec_rule(),
    {
        match &self.contains {
            None => RuleRef { colour: self.bag_color, contents: None },
            Some(items) => {
                let mut v: Vec<(i32, &'a [u8])> = Vec::new();
                let mut j: usize = 0;
                while j < items.len()
                    invariant
                        j <= items.len(),
                        v@.len() == j,
                        forall|k: int|
                            0 <= k < j ==> (#[trigger] v@[k]).0 == items@[k].spec_item().0
                                && v@[k].1@ == items@[k].spec_item().1,
                    decreases items.len() - j,
                {
                    v.push((items[j].count, items[j].bag_color));
                    j = j + 1;
                }
                let r = RuleRef { colour: self.bag_color, contents: Some(v) };
                proof {
                    assert(v@.map_values(|it: (i32, &[u8])| (it.0, it.1@)) =~= items_view(items@));
                }
                r
            },
        }
    }
}

proof fn lemma_items_none_extends(ps: Seq<Seq<u8>>, k: int)
    requires
        0 <= k <= ps.len(),
        items_spec(ps.subrange(0, k)) is None,
    ensures
        items_spec(ps) is None,
    decreases ps.len() - k,
{
    if k < ps.len() {
        assert(ps.subrange(0, k + 1).drop_last() =~= ps.subrange(0, k));
        lemma_items_none_extends(ps, k + 1);
    } else {
        assert(ps.subrange(0, k) =~= ps);
    }
}

proof fn lemma_rules_none_extends(ls: Seq<Seq<u8>>, k: int)
    requires
        0 <= k <= ls.len(),
        rules_spec(ls.subrange(0, k)) is None,
    ensures
        rules_spec(ls) is None,
    decreases ls.len() - k,
{
    if k < ls.len() {
        assert(ls.subrange(0, k + 1).drop_last() =~= ls.subrange(0, k));
        lemma_rules_none_extends(ls, k + 1);
    } else {
        assert(ls.subrange(0, k) =~= ls);
    }
}

/// Reads the rules of an input, one per line, or `None` where a line is no
/// rule.
pub fn try_parse_input<'a>(data: &'a str) -> (r: Option<Vec<BagRule<'a>>>)
    ensures
        match r {
            Some(rules) => input_spec(data.spec_bytes()) == Some(rules_view(rules@)),
            None => input_spec(data.spec_bytes()) is None,
        },
{
    let ls = lines_bytes(data.as_bytes());
    let ghost lv = views(ls@);
    let mut rules: Vec<BagRule<'a>> = Vec::new();
    let mut i: usize = 0;
    proof {
        assert(lv.subrange(0, 0) =~= Seq::<Seq<u8>>::empty());
        assert(rules_view(rules@) =~= Seq::<SpecRule>::empty());
    }
    while i < ls.len()
        invariant
            lv == views(ls@),
            lv == lines(data.spec_bytes()),
            i <= ls.len(),
            rules_spec(lv.subrange(0, i as int)) == Some(rules_view(rules@)),
        decreases ls.len() - i,
    {
        proof {
            assert(lv.subrange(0, i + 1).drop_last() =~= lv.subrange(0, i as int));
            assert(lv.subrange(0, i + 1).last() == ls@[i as int]@);
        }
        match BagRule::parse(ls[i]) {
            None => {
                proof {
                    lemma_rules_none_extends(lv, i + 1);
                }
                return None;
            },
            Some(rule) => {
                let ghost before = rules_view(rules@);
                rules.push(rule);
                proof {
                    assert(rules_view(rules@) =~= before.push(rule.spec_rule()));
                }
            },
        }
        i = i + 1;
    }
    proof {
        assert(lv.subrange(0, ls.len() as int) =~= lv);
    }
    Some(rules)
}

/// Reads the rules of an input, one per line.
pub fn parse_input<'a>(data: &'a str) -> (r: Vec<BagRule<'a>>)
    requires
        input_spec(data.spec_bytes()) is Some,
    ensures
        input_spec(data.spec_bytes()) == Some(rules_view(r@)),
{
    match try_parse_input(data) {
        Some(rules) => rules,
        None => {
            proof {
                assert(false);
            }
            Vec::new()
        },
    }
}

/// Builds the "is inside" and "contains" lookups of the rules.
pub fn generate_lookups<'a>(rules: &Vec<BagRule<'a>>) -> (l: Lookups)
    ensures
        l.wf(),
        l.inside_view() == inside_map(rules_view(rules@)),
        l.contents_view() == contents_map(rules_view(rules@)),
        l.colour_count() == colour_total(rules_view(rules@)),
{
    let mut refs: Vec<RuleRef<'a>> = Vec::new();
    let mut i: usize = 0;
    while i < rules.len()
        invariant
            i <= rules.len(),
            refs@.len() == i,
            forall|k: int| 0 <= k < i ==> rule_ref_view(#[trigger] refs@[k]) == rules@[k].spec_rule(),
        decreases rules.len() - i,
    {
        refs.push(rules[i].as_rule_ref());
        i = i + 1;
    }
    assert(rule_refs_view(refs@) =~= rules_view(rules@));
    Lookups::from_rules(&refs)
}

/// The colours that hold a bag of colour `color`, directly or through bags
/// inside bags, each once.
pub fn bag_colors_contain(lookup: &Lookups, color: &str) -> (r: Vec<Vec<u8>>)
    requires
        lookup.wf(),
    ensures
        names_of(r@).no_duplicates(),
        forall|y: Seq<u8>|
            #[trigger] names_of(r@).contains(y) <==> holds_eventually(
                lookup.inside_view(),
                color.spec_bytes(),
                y,
            ),
{
    lookup.colours_holding(color.as_bytes())
}

/// The number of bags inside one bag of colour `color`.
pub fn count_bags_inside(lookup: &Lookups, color: &str) -> (r: i32)
    requires
        lookup.wf(),
        bags_inside(*lookup, color.spec_bytes()) is Some,
    ensures
        bags_inside(*lookup, color.spec_bytes()) == Some(r as int),
{
    match lookup.count_inside(color.as_bytes()) {
        Some(v) => v,
        None => {
            proof {
                assert(false);
            }
            0
        },
    }
}

/// The answers for an input: how many colours eventually hold a shiny gold
/// bag and how many bags one shiny gold bag holds; `None` where a line is no
/// rule or the count is not defined.
pub fn try_run_calc(data: &str) -> (r: Option<(usize, i32)>)
    ensures
        match r {
            Some((colors, inside)) => input_spec(data.spec_bytes()) matches Some(rules) && colors
                == holders_of(rules, shiny_gold()).len() && count_for(rules, shiny_gold()) == Some(
                inside as int,
            ),
            None => !(input_spec(data.spec_bytes()) matches Some(rules) && count_for(
                rules,
                shiny_gold(),
            ) is Some),
        },
{
    let rules = match try_parse_input(data) {
        Some(rules) => rules,
        None => {
            return None;
        },
    };
    let lookups = generate_lookups(&rules);
    proof {
        reveal_strlit("shiny gold");
    }
    let gold = ascii_bytes("shiny gold");
    let holders = lookups.colours_holding(gold);
    let inside = match lookups.count_inside(gold) {
        Some(v) => v,
        None => {
            return None;
        },
    };
    proof {
        let rs = rules_view(rules@);
        assert(names_of(holders@).to_set() =~= holders_of(rs, shiny_gold()));
        names_of(holders@).unique_seq_to_set();
    }
    Some((holders.len(), inside))
}

/// The answers for an input: how many colours eventually hold a shiny gold
/// bag and how many bags one shiny gold bag holds.
pub fn run_calc(data: &str) -> (r: (usize, i32))
    requires
        input_spec(data.spec_bytes()) matches Some(rules) && count_for(rules, shiny_gold()) is Some,
    ensures
        input_spec(data.spec_bytes()) matches Some(rules) && r.0 == holders_of(rules, shiny_gold()).len()
            && count_for(rules, shiny_gold()) == Some(r.1 as int),
{
    match try_run_calc(data) {
        Some(r) => r,
        None => {
            proof {
                assert(false);
            }
            (0, 0)
        },
    }
}

} // verus!
