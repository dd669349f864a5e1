//! The tags that a scheduler is built from, such as `:match-limit 1000`.

use vstd::prelude::*;

use crate::expr::{Expr, Literal};
use crate::name_map::NameMap;
use crate::schedulers::back_off::{BackOffScheduler, BackOffView};
use crate::schedulers::round_robin::{RoundRobinBackoffScheduler, RoundRobinView};

verus! {

/// The name of a tag.
pub open spec fn tag_name(expr: Expr) -> Seq<char> {
    match expr {
        Expr::Var(_, name) => name@,
        _ => Seq::empty(),
    }
}

/// The value of a tag.
pub open spec fn tag_value(expr: Expr) -> Literal {
    match expr {
        Expr::Lit(_, value) => value,
        _ => Literal::Unit,
    }
}

/// Whether arguments are tags: names and literals by turns, and no name twice.
pub open spec fn are_tags(args: Seq<Expr>) -> bool {
    &&& args.len() % 2 == 0
    &&& forall|i: int|
        0 <= i < args.len() ==> if i % 2 == 0 {
            (#[trigger] args[i]) is Var
        } else {
            args[i] is Lit
        }
    &&& forall|i: int, j: int|
        0 <= i < j < args.len() && i % 2 == 0 && j % 2 == 0 ==> tag_name(#[trigger] args[i])
            != tag_name(#[trigger] args[j])
}

/// The tags that arguments make up.
pub open spec fn tags_of(args: Seq<Expr>) -> Map<Seq<char>, Literal>
    decreases args.len(),
{
    if args.len() < 2 {
        Map::empty()
    } else {
        tags_of(args.take(args.len() - 2)).insert(
            tag_name(args[args.len() - 2]),
            tag_value(args[args.len() - 1]),
        )
    }
}

/// Reading tags gives each name that stands among them the literal that follows
/// it, and has no other name.
pub proof fn law_tags_read_back(args: Seq<Expr>)
    requires
        are_tags(args),
    ensures
        forall|i: int|
            0 <= i < args.len() && i % 2 == 0 ==> tags_of(args).contains_key(
                tag_name(#[trigger] args[i]),
            ) && tags_of(args)[tag_name(args[i])] == tag_value(args[i + 1]),
        forall|name: Seq<char>| #[trigger]
            tags_of(args).contains_key(name) ==> exists|i: int|
                0 <= i < args.len() && i % 2 == 0 && tag_name(#[trigger] args[i]) == name,
    decreases args.len(),
{
    if args.len() >= 2 {
        let front = args.take(args.len() - 2);
        assert forall|i: int| 0 <= i < front.len() implies #[trigger] front[i] == args[i] by {}
        law_tags_read_back(front);
        assert forall|i: int| 0 <= i < args.len() && i % 2 == 0 implies tags_of(args).contains_key(
            tag_name(#[trigger] args[i]),
        ) && tags_of(args)[tag_name(args[i])] == tag_value(args[i + 1]) by {
            if i < front.len() {
                assert(tags_of(front).contains_key(tag_name(front[i])));
                assert(tag_name(args[i]) != tag_name(args[args.len() - 2]));
                assert(front[i + 1] == args[i + 1]);
            }
        }
        assert forall|name: Seq<char>| #[trigger]
            tags_of(args).contains_key(name) implies exists|i: int|
            0 <= i < args.len() && i % 2 == 0 && tag_name(#[trigger] args[i]) == name by {
            if tags_of(front).contains_key(name) {
                let i = choose|i: int|
                    0 <= i < front.len() && i % 2 == 0 && tag_name(#[trigger] front[i]) == name;
                assert(tag_name(args[i]) == name);
            } else {
                assert(tag_name(args[args.len() - 2]) == name);
            }
        }
    }
}

/// Whether arguments are tags.
pub fn check_tags(args: &[Expr]) -> (valid: bool)
    ensures
        valid == are_tags(args@),
{
    if args.len() % 2 != 0 {
        return false;
    }
    let mut i: usize = 0;
    while i < args.len()
        invariant
            i <= args@.len(),
            args@.len() % 2 == 0,
            i % 2 == 0,
            forall|k: int|
                0 <= k < i ==> if k % 2 == 0 {
                    (#[trigger] args@[k]) is Var
                } else {
                    args@[k] is Lit
                },
            forall|a: int, b: int|
                0 <= a < b < i && a % 2 == 0 && b % 2 == 0 ==> tag_name(#[trigger] args@[a])
                    != tag_name(#[trigger] args@[b]),
        decreases args@.len() - i,
    {
        let name: &String = match &args[i] {
            Expr::Var(_, name) => name,
            _ => {
                return false;
            },
        };
        match &args[i + 1] {
            Expr::Lit(_, _) => {},
            _ => {
                return false;
            },
        }
        let mut j: usize = 0;
        while j < i
            invariant
                j <= i < args@.len(),
                i % 2 == 0,
                j % 2 == 0,
                args@[i as int] matches Expr::Var(_, own) && own@ == name@,
                forall|k: int|
                    0 <= k < i ==> if k % 2 == 0 {
                        (#[trigger] args@[k]) is Var
                    } else {
                        args@[k] is Lit
                    },
                forall|k: int|
                    0 <= k < j && k % 2 == 0 ==> tag_name(#[trigger] args@[k]) != name@,
            decreases i - j,
        {
            if let Expr::Var(_, other) = &args[j] {
                if *other.as_str() == *name.as_str() {
                    assert(tag_name(args@[j as int]) == tag_name(args@[i as int]));
                    return false;
                }
            }
            j = j + 2;
        }
        i = i + 2;
    }
    true
}

/// Reads tags.
pub fn parse_tags(args: &[Expr]) -> (tags: NameMap<Literal>)
    requires
        are_tags(args@),
    ensures
        tags.wf(),
        tags@ == tags_of(args@),
{
    let mut tags: NameMap<Literal> = NameMap::new();
    let mut i: usize = 0;
    while i < args.len()
        invariant
            i <= args@.len(),
            i % 2 == 0,
            are_tags(args@),
            tags.wf(),
            tags@ == tags_of(args@.take(i as int)),
        decreases args@.len() - i,
    {
        if let (Expr::Var(_, name), Expr::Lit(_, value)) = (&args[i], &args[i + 1]) {
            tags.insert(name.clone(), value.clone());
        }
        proof {
            let front = args@.take(i + 2);
            assert(front.take(front.len() - 2) =~= args@.take(i as int));
        }
        i = i + 2;
    }
    assert(args@.take(i as int) =~= args@);
    tags
}

/// Whether a tag, where it is given, is an integer.
pub open spec fn is_int_tag(tags: Map<Seq<char>, Literal>, name: Seq<char>) -> bool {
    tags.contains_key(name) ==> tags[name] is Int
}

/// The word that an integer tag stands for. Of a negative integer that is its
/// bit pattern.
pub open spec fn word_of_tag(tags: Map<Seq<char>, Literal>, name: Seq<char>) -> Option<usize> {
    if tags.contains_key(name) {
        match tags[name] {
            Literal::Int(n) => Some(n as usize),
            _ => None,
        }
    } else {
        None
    }
}

/// Reads an integer tag.
pub fn usize_tag(tags: &NameMap<Literal>, name: &str) -> (word: Option<usize>)
    requires
        tags.wf(),
        is_int_tag(tags@, name@),
    ensures
        word == word_of_tag(tags@, name@),
{
    match tags.get(name) {
        Some(Literal::Int(n)) => Some(*n as usize),
        _ => None,
    }
}

/// Whether arguments are tags that a back-off scheduler can be built from.
pub open spec fn are_back_off_args(args: Seq<Expr>) -> bool {
    &&& are_tags(args)
    &&& is_int_tag(tags_of(args), ":match-limit"@)
    &&& is_int_tag(tags_of(args), ":ban-length"@)
}

/// The scheduler that is built from arguments: by default a rule may produce
/// 1000 matches, and its first ban lasts for 5 iterations.
pub open spec fn back_off_of(args: Seq<Expr>) -> BackOffView {
    BackOffView {
        match_limit: match word_of_tag(tags_of(args), ":match-limit"@) {
            Some(limit) => limit,
            None => 1000,
        },
        ban_length: match word_of_tag(tags_of(args), ":ban-length"@) {
            Some(length) => length,
            None => 5,
        },
        stats: Map::empty(),
    }
}

/// Whether a back-off scheduler can be built from arguments.
pub fn check_back_off_args(args: &[Expr]) -> (valid: bool)
    ensures
        valid == are_back_off_args(args@),
{
    if !check_tags(args) {
        return false;
    }
    let tags: NameMap<Literal> = parse_tags(args);
    let limit_fits: bool = match tags.get(":match-limit") {
        Some(Literal::Int(_)) => true,
        Some(_) => false,
        None => true,
    };
    let length_fits: bool = match tags.get(":ban-length") {
        Some(Literal::Int(_)) => true,
        Some(_) => false,
        None => true,
    };
    limit_fits && length_fits
}

/// No arguments are no tags.
pub proof fn law_no_tags()
    ensures
        are_tags(Seq::empty()),
        tags_of(Seq::empty()) == Map::<Seq<char>, Literal>::empty(),
{
}

/// A name and a literal behind tags make up one tag more, just if no tag has
/// that name yet.
pub proof fn law_one_tag_more(
    args: Seq<Expr>,
    name: String,
    value: Literal,
    name_at: usize,
    value_at: usize,
)
    requires
        are_tags(args),
    ensures
        ({
            let more = args + seq![Expr::Var(name_at, name), Expr::Lit(value_at, value)];
            &&& are_tags(more) <==> !tags_of(args).contains_key(name@)
            &&& tags_of(more) == tags_of(args).insert(name@, value)
        }),
{
    let n = args.len();
    let more = args + seq![Expr::Var(name_at, name), Expr::Lit(value_at, value)];
    law_tags_read_back(args);
    assert(more.take(n as int) =~= args);
    assert(more[n as int] == Expr::Var(name_at, name));
    assert(more[n as int + 1] == Expr::Lit(value_at, value));
    if tags_of(args).contains_key(name@) {
        let i = choose|i: int|
            0 <= i < args.len() && i % 2 == 0 && tag_name(#[trigger] args[i]) == name@;
        assert(more[i] == args[i]);
        assert(tag_name(more[i]) == tag_name(more[n as int]));
    } else {
        assert forall|i: int, j: int|
            0 <= i < j < more.len() && i % 2 == 0 && j % 2 == 0 implies tag_name(
            #[trigger] more[i],
        ) != tag_name(#[trigger] more[j]) by {
            assert(more[i] == args[i]);
            if j < n {
                assert(more[j] == args[j]);
            } else {
                assert(j == n);
                assert(tags_of(args).contains_key(tag_name(args[i])));
            }
        }
        assert forall|i: int| 0 <= i < more.len() implies if i % 2 == 0 {
            (#[trigger] more[i]) is Var
        } else {
            more[i] is Lit
        } by {
            if i < n {
                assert(more[i] == args[i]);
            }
        }
    }
}

/// Tags end with a name and a literal, and what stands before those are tags.
pub proof fn law_last_tag(args: Seq<Expr>)
    requires
        are_tags(args),
        args.len() > 0,
    ensures
        args.len() >= 2,
        are_tags(args.take(args.len() - 2)),
        args[args.len() - 2] is Var,
        args[args.len() - 1] is Lit,
{
    let n = args.len();
    assert(n >= 2);
    let front = args.take(n - 2);
    assert forall|i: int| 0 <= i < front.len() implies #[trigger] front[i] == args[i] by {}
    assert(args[n - 2] is Var);
    assert(args[n - 1] is Lit);
}

/// Whether the name of a tag stands at this place.
pub open spec fn stands_at(args: Seq<Expr>, name: Seq<char>, i: int) -> bool {
    0 <= i < args.len() && i % 2 == 0 && (args[i] matches Expr::Var(_, own) && own@ == name)
}

/// What a tag says is what stands behind its name.
proof fn lemma_tag_at(args: Seq<Expr>, name: Seq<char>)
    requires
        are_tags(args),
    ensures
        tags_of(args).contains_key(name) <==> exists|i: int| #[trigger] stands_at(args, name, i),
        forall|i: int| #[trigger]
            stands_at(args, name, i) ==> args[i + 1] == Expr::Lit(
                args[i + 1].spec_position(),
                tags_of(args)[name],
            ),
{
    law_tags_read_back(args);
    if tags_of(args).contains_key(name) {
        let i = choose|i: int|
            0 <= i < args.len() && i % 2 == 0 && tag_name(#[trigger] args[i]) == name;
        assert(stands_at(args, name, i));
    }
    assert forall|i: int| #[trigger] stands_at(args, name, i) implies tags_of(args).contains_key(
        name,
    ) && args[i + 1] == Expr::Lit(args[i + 1].spec_position(), tags_of(args)[name]) by {
        assert(tag_name(args[i]) == name);
        assert(args[i + 1] is Lit);
    }
}

/// The scheduler that tags make up has the match limit and the ban length that
/// they give, 1000 and 5 where they give none, and knows no rule. Tags that give
/// either as something other than an integer make up none.
pub proof fn law_back_off_of(args: Seq<Expr>)
    requires
        are_tags(args),
    ensures
        ({
            let made = back_off_of(args);
            &&& are_back_off_args(args) <==> (forall|i: int| #[trigger]
                stands_at(args, ":match-limit"@, i) ==> (args[i + 1] matches Expr::Lit(
                    _,
                    Literal::Int(_),
                ))) && (forall|i: int| #[trigger]
                stands_at(args, ":ban-length"@, i) ==> (args[i + 1] matches Expr::Lit(
                    _,
                    Literal::Int(_),
                )))
            &&& forall|i: int| #[trigger]
                stands_at(args, ":match-limit"@, i) ==> (args[i + 1] matches Expr::Lit(
                    _,
                    Literal::Int(n),
                ) ==> made.match_limit == n as usize)
            &&& forall|i: int| #[trigger]
                stands_at(args, ":ban-length"@, i) ==> (args[i + 1] matches Expr::Lit(
                    _,
                    Literal::Int(n),
                ) ==> made.ban_length == n as usize)
            &&& (forall|i: int| !#[trigger] stands_at(args, ":match-limit"@, i))
                ==> made.match_limit == 1000
            &&& (forall|i: int| !#[trigger] stands_at(args, ":ban-length"@, i))
                ==> made.ban_length == 5
            &&& forall|rule: Seq<char>| !#[trigger] made.stats.contains_key(rule)
        }),
{
    lemma_tag_at(args, ":match-limit"@);
    lemma_tag_at(args, ":ban-length"@);
    if tags_of(args).contains_key(":match-limit"@) {
        let i = choose|i: int| #[trigger] stands_at(args, ":match-limit"@, i);
        assert(stands_at(args, ":match-limit"@, i));
    }
    if tags_of(args).contains_key(":ban-length"@) {
        let i = choose|i: int| #[trigger] stands_at(args, ":ban-length"@, i);
        assert(stands_at(args, ":ban-length"@, i));
    }
}

/// Builds a back-off scheduler.
pub fn new_back_off_scheduler(args: &[Expr]) -> (scheduler: BackOffScheduler)
    requires
        are_back_off_args(args@),
    ensures
        scheduler.wf(),
        scheduler@ == back_off_of(args@),
{
    let tags: NameMap<Literal> = parse_tags(args);
    let match_limit: usize = usize_tag(&tags, ":match-limit").unwrap_or(1000);
    let ban_length: usize = usize_tag(&tags, ":ban-length").unwrap_or(5);
    BackOffScheduler::new(match_limit, ban_length)
}

/// Builds a round-robin back-off scheduler, from the same arguments as a
/// back-off scheduler.
pub fn new_round_robin_back_off_scheduler(args: &[Expr]) -> (scheduler: RoundRobinBackoffScheduler)
    requires
        are_back_off_args(args@),
    ensures
        scheduler.wf(),
        scheduler@ == RoundRobinView::fresh(back_off_of(args@)),
{
    RoundRobinBackoffScheduler::new(new_back_off_scheduler(args))
}

} // verus!
