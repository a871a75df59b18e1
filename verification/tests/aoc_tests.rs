use learning_rust::aoc::{fast, slow};

/// A set of bag rules in the puzzle's format: 222 colours eventually hold a
/// shiny gold bag, which itself holds 13264 bags.
const INPUT: &str = "pale purple bags contain 2 pale plum bags.
muted olive bags contain 2 muted maroon bags, 3 wavy yellow bags.
dark gray bags contain 2 dark black bags.
wavy indigo bags contain no other bags.
dark white bags contain 2 dark violet bags.
faded indigo bags contain 2 faded blue bags.
dark purple bags contain 2 dark plum bags.
light chartreuse bags contain 2 light brown bags.
faded orange bags contain 2 faded red bags, 3 vibrant crimson bags.
wavy orange bags contain no other bags.
bright aqua bags contain 2 bright magenta bags.
faded brown bags contain 2 faded bronze bags, 3 wavy violet bags.
muted lime bags contain 2 muted teal bags.
vibrant orange bags contain 2 vibrant red bags.
dark brown bags contain 2 dark bronze bags.
vibrant red bags contain 2 pale crimson bags.
muted red bags contain 2 bright crimson bags.
muted indigo bags contain 2 muted blue bags.
pale green bags contain 2 pale yellow bags, 3 wavy indigo bags.
dotted indigo bags contain 2 dotted blue bags.
vibrant bronze bags contain no other bags.
bright fuchsia bags contain 2 bright cyan bags.
light green bags contain 2 light yellow bags.
light cyan bags contain 2 light coral bags, 3 vibrant magenta bags.
bright gray bags contain 2 bright black bags.
dark green bags contain 2 dark yellow bags.
vibrant aqua bags contain no other bags.
dark tan bags contain 2 dark gray bags.
striped tan bags contain 11 plaid crimson bags.
bright magenta bags contain 2 bright lavender bags, 3 wavy red bags.
faded purple bags contain 2 faded plum bags, 3 vibrant bronze bags.
bright yellow bags contain 2 bright orange bags.
faded teal bags contain 2 faded tan bags, 3 wavy gray bags.
vibrant purple bags contain 2 vibrant plum bags.
vibrant green bags contain 2 vibrant yellow bags.
dotted crimson bags contain 2 dotted chartreuse bags.
dotted black bags contain 2 dotted white bags.
bright plum bags contain 2 bright olive bags.
dotted magenta bags contain 2 dotted lavender bags.
pale brown bags contain 2 pale bronze bags.
bright indigo bags contain 2 bright blue bags.
pale tan bags contain 2 pale gray bags.
dotted cyan bags contain 2 dotted coral bags.
dark chartreuse bags contain 2 dark brown bags, 3 vibrant lavender bags.
dotted teal bags contain 2 dotted tan bags.
muted violet bags contain 2 muted indigo bags.
dark indigo bags contain 2 dark blue bags.
pale coral bags contain 2 pale beige bags.
pale maroon bags contain 2 pale lime bags, 3 vibrant brown bags.
pale chartreuse bags contain 2 pale brown bags.
vibrant magenta bags contain no other bags.
wavy gray bags contain no other bags.
bright coral bags contain 2 bright beige bags.
dotted purple bags contain 2 dotted plum bags.
plaid crimson bags contain 19 muted aqua bags.
dotted green bags contain 2 dotted yellow bags.
muted coral bags contain 2 muted beige bags, 3 wavy white bags.
muted fuchsia bags contain 2 muted cyan bags.
vibrant crimson bags contain no other bags.
light magenta bags contain 2 light lavender bags.
bright blue bags contain 2 bright green bags.
muted aqua bags contain no other bags.
vibrant yellow bags contain 2 vibrant orange bags.
faded green bags contain 2 faded yellow bags.
dotted yellow bags contain 2 dotted orange bags, 3 vibrant lavender bags.
vibrant beige bags contain 2 vibrant silver bags.
light black bags contain 2 light white bags.
pale magenta bags contain 2 pale lavender bags, 3 wavy white bags.
vibrant plum bags contain 2 vibrant olive bags.
muted teal bags contain 2 muted tan bags.
faded olive bags contain 2 faded maroon bags.
dark bronze bags contain 2 dark aqua bags.
light orange bags contain 2 light red bags.
bright green bags contain 2 bright yellow bags, 3 vibrant chartreuse bags.
faded gray bags contain 2 faded black bags.
dark violet bags contain 2 dark indigo bags, 3 wavy gray bags.
faded maroon bags contain 2 faded lime bags.
dark maroon bags contain 2 dark lime bags.
bright violet bags contain 2 bright indigo bags.
muted black bags contain 2 muted white bags.
dotted gray bags contain 2 dotted black bags.
shiny gold bags contain 4 dark olive bags.
pale orange bags contain 2 pale red bags.
light crimson bags contain 2 light chartreuse bags.
faded cyan bags contain 2 faded coral bags.
bright maroon bags contain 2 bright lime bags, 3 wavy black bags.
dotted coral bags contain 2 dotted beige bags.
dark olive bags contain 15 striped tan bags.
muted gray bags contain 2 muted black bags, 3 vibrant brown bags.
bright lavender bags contain 2 bright fuchsia bags.
pale teal bags contain 2 pale tan bags.
muted chartreuse bags contain 2 muted brown bags.
vibrant lavender bags contain no other bags.
muted lavender bags contain 2 muted fuchsia bags.
dotted silver bags contain 2 dotted purple bags, 3 wavy black bags.
light aqua bags contain 2 light magenta bags.
pale lime bags contain 2 pale teal bags.
pale violet bags contain 2 pale indigo bags.
dark teal bags contain 2 dark tan bags, 3 vibrant bronze bags.
dark cyan bags contain 2 dark coral bags.
pale olive bags contain 2 pale maroon bags.
muted plum bags contain 2 muted olive bags.
dotted bronze bags contain 2 dotted aqua bags.
dark lavender bags contain 2 dark fuchsia bags, 3 wavy violet bags.
muted maroon bags contain 2 muted lime bags.
pale gray bags contain 2 pale black bags.
dark orange bags contain 2 dark red bags, 3 wavy blue bags.
bright black bags contain 2 bright white bags, 3 wavy green bags.
dark beige bags contain 2 dark silver bags.
vibrant tan bags contain 2 vibrant gray bags.
dotted olive bags contain 2 dotted maroon bags.
pale plum bags contain 2 pale olive bags.
faded blue bags contain 2 faded green bags.
vibrant fuchsia bags contain no other bags.
muted bronze bags contain 2 muted magenta bags, 3 vibrant magenta bags.
dark silver bags contain 2 dark purple bags, 3 wavy orange bags.
vibrant teal bags contain 2 vibrant tan bags.
muted green bags contain 2 muted yellow bags.
pale red bags contain 2 dotted crimson bags.
pale aqua bags contain 2 pale magenta bags.
pale blue bags contain 2 pale green bags.
light lavender bags contain 2 light fuchsia bags.
light yellow bags contain 2 light orange bags.
dotted fuchsia bags contain 2 dotted cyan bags.
vibrant brown bags contain no other bags.
pale cyan bags contain 2 pale coral bags.
light purple bags contain 2 light plum bags.
bright crimson bags contain 2 bright chartreuse bags, 3 wavy indigo bags.
muted crimson bags contain 2 muted chartreuse bags.
light red bags contain 1 shiny gold bag, 2 vibrant fuchsia bags.
bright brown bags contain 2 bright bronze bags.
muted white bags contain 2 muted violet bags.
bright tan bags contain 2 bright gray bags.
vibrant black bags contain 2 vibrant white bags.
bright silver bags contain 2 bright purple bags.
pale black bags contain 2 pale white bags, 3 vibrant fuchsia bags.
pale white bags contain 2 pale violet bags.
faded yellow bags contain 2 faded orange bags.
bright white bags contain 2 bright violet bags.
vibrant silver bags contain 2 vibrant purple bags.
vibrant coral bags contain 2 vibrant beige bags, 3 vibrant bronze bags.
dotted aqua bags contain 2 dotted magenta bags.
pale yellow bags contain 2 pale orange bags.
bright chartreuse bags contain 2 bright brown bags.
dotted blue bags contain 2 dotted green bags.
dotted chartreuse bags contain 2 dotted brown bags, 3 wavy red bags.
pale crimson bags contain 2 pale chartreuse bags, 3 vibrant magenta bags.
light olive bags contain 2 light maroon bags.
light indigo bags contain 2 light blue bags, 3 vibrant brown bags.
dotted violet bags contain 2 dotted indigo bags.
faded violet bags contain 2 faded indigo bags, 3 wavy blue bags.
wavy black bags contain no other bags.
vibrant gray bags contain 2 vibrant black bags, 3 wavy blue bags.
dark black bags contain 2 dark white bags.
pale bronze bags contain 2 pale aqua bags.
faded lime bags contain 2 faded teal bags.
pale lavender bags contain 2 pale fuchsia bags.
wavy green bags contain no other bags.
dotted white bags contain 2 dotted violet bags, 3 vibrant chartreuse bags.
bright teal bags contain 2 bright tan bags.
muted magenta bags contain 2 muted lavender bags.
bright bronze bags contain 2 bright aqua bags.
faded white bags contain 2 faded violet bags.
faded plum bags contain 2 faded olive bags.
dotted lavender bags contain 2 dotted fuchsia bags, 3 vibrant aqua bags.
vibrant maroon bags contain 2 vibrant lime bags.
light plum bags contain 2 light olive bags, 3 wavy white bags.
bright red bags contain 2 dark crimson bags.
pale silver bags contain 2 pale purple bags.
bright orange bags contain 2 bright red bags.
bright olive bags contain 2 bright maroon bags.
muted orange bags contain 2 muted red bags.
muted brown bags contain 2 muted bronze bags.
wavy yellow bags contain no other bags.
faded red bags contain 2 muted crimson bags.
bright beige bags contain 2 bright silver bags, 3 vibrant aqua bags.
muted beige bags contain 2 muted silver bags.
faded silver bags contain 2 faded purple bags.
pale beige bags contain 2 pale silver bags, 3 wavy yellow bags.
faded black bags contain 2 faded white bags.
dark coral bags contain 2 dark beige bags.
dotted tan bags contain 2 dotted gray bags.
vibrant violet bags contain 2 vibrant indigo bags.
vibrant lime bags contain 2 vibrant teal bags.
light teal bags contain 2 light tan bags.
pale indigo bags contain 2 pale blue bags.
faded fuchsia bags contain 2 faded cyan bags, 3 wavy orange bags.
wavy red bags contain no other bags.
muted blue bags contain 2 muted green bags, 3 vibrant fuchsia bags.
dark plum bags contain 2 dark maroon bags.
dotted plum bags contain 2 dotted olive bags.
pale fuchsia bags contain 2 pale cyan bags.
dotted red bags contain 2 faded crimson bags.
light fuchsia bags contain 2 light cyan bags.
dark lime bags contain 2 dark teal bags.
dotted brown bags contain 2 dotted bronze bags.
faded aqua bags contain 2 faded magenta bags.
bright purple bags contain 2 bright plum bags.
faded chartreuse bags contain 2 faded brown bags.
light bronze bags contain 2 light aqua bags, 3 vibrant crimson bags.
faded coral bags contain 2 faded beige bags.
dark yellow bags contain 2 dark orange bags.
vibrant cyan bags contain 2 vibrant coral bags.
bright lime bags contain 2 bright teal bags.
dark red bags contain 2 light crimson bags.
faded magenta bags contain 2 faded lavender bags.
light violet bags contain 2 light indigo bags.
dark magenta bags contain 2 dark lavender bags.
wavy blue bags contain no other bags.
wavy violet bags contain no other bags.
vibrant white bags contain 2 vibrant violet bags.
faded crimson bags contain 2 faded chartreuse bags.
vibrant olive bags contain 2 vibrant maroon bags, 3 wavy gray bags.
vibrant chartreuse bags contain no other bags.
dotted lime bags contain 2 dotted teal bags, 3 wavy green bags.
dotted maroon bags contain 2 dotted lime bags.
dark aqua bags contain 2 dark magenta bags.
light brown bags contain 2 light bronze bags.
faded bronze bags contain 2 faded aqua bags.
vibrant indigo bags contain 2 vibrant blue bags.
light tan bags contain 2 light gray bags, 3 wavy yellow bags.
muted silver bags contain 2 muted purple bags.
faded lavender bags contain 2 faded fuchsia bags.
light beige bags contain 2 light silver bags.
dark crimson bags contain 2 dark chartreuse bags.
light lime bags contain 2 light teal bags.
muted purple bags contain 2 muted plum bags.
muted cyan bags contain 2 muted coral bags.
light silver bags contain 2 light purple bags.
light blue bags contain 2 light green bags.
dark fuchsia bags contain 2 dark cyan bags.
faded tan bags contain 2 faded gray bags.
light gray bags contain 2 light black bags.
dotted orange bags contain 2 dotted red bags.
muted yellow bags contain 2 muted orange bags.
light coral bags contain 2 light beige bags.
faded beige bags contain 2 faded silver bags.
vibrant blue bags contain 2 vibrant green bags, 3 vibrant crimson bags.
light maroon bags contain 2 light lime bags.
light white bags contain 2 light violet bags.
dotted beige bags contain 2 dotted silver bags.
muted tan bags contain 2 muted gray bags.
dark blue bags contain 2 dark green bags.
wavy white bags contain no other bags.
bright cyan bags contain 2 bright coral bags.
";

#[test]
fn fast_test_run_calc() {
    let result = fast::run_calc(INPUT);
    assert_eq!(result, (222, 13264));
}

#[test]
fn slow_test_run_calc() {
    let result = slow::run_calc(INPUT);
    assert_eq!(result, (222, 13264));
}

const EXAMPLE: &str = "light red bags contain 1 bright white bag, 2 muted yellow bags.
dark orange bags contain 3 bright white bags, 4 muted yellow bags.
bright white bags contain 1 shiny gold bag.
muted yellow bags contain 2 shiny gold bags, 9 faded blue bags.
shiny gold bags contain 1 dark olive bag, 2 vibrant plum bags.
dark olive bags contain 3 faded blue bags, 4 dotted black bags.
vibrant plum bags contain 5 faded blue bags, 6 dotted black bags.
faded blue bags contain no other bags.
dotted black bags contain no other bags.";

#[test]
fn puzzle_example_both_readers() {
    assert_eq!(fast::run_calc(EXAMPLE), (4, 32));
    assert_eq!(slow::run_calc(EXAMPLE), (4, 32));
}

#[test]
fn holders_and_contents_of_example() {
    let rules = fast::parse_input(EXAMPLE);
    let lookups = fast::generate_lookups(&rules);
    let mut holders = fast::bag_colors_contain(&lookups, "shiny gold");
    holders.sort();
    let names: Vec<String> = holders.into_iter().map(|h| String::from_utf8(h).unwrap()).collect();
    assert_eq!(names, vec!["bright white", "dark orange", "light red", "muted yellow"]);
    assert_eq!(fast::count_bags_inside(&lookups, "shiny gold"), 32);
    assert_eq!(fast::count_bags_inside(&lookups, "faded blue"), 0);
}

#[test]
fn malformed_rules_are_refused() {
    assert!(fast::try_run_calc("shiny gold bags contain lots of bags.").is_none());
    assert!(slow::try_run_calc("shiny gold bags hold 1 red bag.").is_none());
}

#[test]
fn readers_differ_on_words_beginning_with_bag() {
    let data = "shiny gold bags contain 1 dark bagel bag.\ndark bagel bags contain no other bags.";
    assert_eq!(fast::try_run_calc(data), Some((0, 1)));
    assert_eq!(slow::try_run_calc(data), None);
}

#[test]
fn readers_agree_on_well_formed_rules() {
    let data = "shiny gold bags contain 2 dark red bags, 1 pale blue bag.\ndark red bags contain 3 pale blue bags.\npale blue bags contain no other bags.\nmuted tan bags contain 4 shiny gold bags.";
    assert_eq!(fast::try_run_calc(data), Some((1, 9)));
    assert_eq!(slow::try_run_calc(data), Some((1, 9)));
}

#[test]
fn item_readers_agree_on_single_items() {
    for line in ["2 muted yellow bags", "1 bright white bag", "1 bright white bags", "12 dark olive bag"] {
        let f = format!("{:?}", fast::BagItem::new(line));
        let s = format!("{:?}", slow::BagItem::new(line.to_string()));
        assert_eq!(f, s);
    }
    let f = format!("{:?}", fast::BagItem::new("2 muted yellow bags"));
    assert!(f.contains("count: 2"));
    assert!(f.contains(&format!("{:?}", b"muted yellow")));
}

#[test]
fn item_readers_agree_on_any_count_text_and_words() {
    for line in ["+02 Muted-x yellow bags", "-1 a b bag", "007 pale baize bags", "5 x xbag bag"] {
        let f = format!("{:?}", fast::BagItem::new(line));
        let s = format!("{:?}", slow::BagItem::new(line.to_string()));
        assert_eq!(f, s);
    }
    let f = format!("{:?}", fast::BagItem::new("-1 a b bag"));
    assert!(f.contains("count: -1"));
}
