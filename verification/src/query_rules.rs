//! Queries and what they launched, and the queries that were typed before.

use crate::document;
use crate::explanation;
use crate::items;
use crate::ordering;
use crate::places;
use crate::recents;
use crate::results;
use crate::results::{LaunchTarget, SearchResult};
use crate::root_ownership;
use crate::text;
use crate::types::{IndexRoot, LaunchItem, ResultRankingKind};
use crate::winpath;
use crate::wording;
use crate::wording::Wording;
use vstd::prelude::*;

verus! {

/// A query and what it launches.
#[derive(Debug, PartialEq, Eq)]
pub struct QueryLaunchRule {
    pub query: String,
    pub target: String,
}

/// What a rule says.
pub open spec fn rule_model(rule: QueryLaunchRule) -> (Seq<char>, Seq<char>) {
    (rule.query@, rule.target@)
}

/// What rules say.
pub open spec fn rule_models(rules: Seq<QueryLaunchRule>) -> Seq<(Seq<char>, Seq<char>)> {
    Seq::new(rules.len(), |i: int| rule_model(rules[i]))
}

impl QueryLaunchRule {
    /// A copy.
    pub fn copy(&self) -> (r: QueryLaunchRule)
        ensures
            r == *self,
    {
        QueryLaunchRule { query: self.query.clone(), target: self.target.clone() }
    }
}

fn push_rule(rules: &mut Vec<QueryLaunchRule>, rule: QueryLaunchRule)
    ensures
        final(rules)@ == old(rules)@.push(rule),
        rule_models(final(rules)@) == rule_models(old(rules)@).push(rule_model(rule)),
{
    let ghost before = rules@;
    let ghost model = rule_model(rule);
    rules.push(rule);
    proof {
        assert(rule_models(rules@) =~= rule_models(before).push(model));
    }
}

// ---------------------------------------------------------------------------
// Lines
// ---------------------------------------------------------------------------

/// The rule of a line: a query, a tab and a target, neither of them blank.
pub open spec fn rule_in(line: Seq<char>) -> Option<(Seq<char>, Seq<char>)> {
    match document::cut(line, "\t"@) {
        None => None,
        Some((query, target)) => if text::trimmed(query).len() > 0 && text::trimmed(target).len()
            > 0 {
            Some((text::trimmed(query), text::trimmed(target)))
        } else {
            None
        },
    }
}

/// Reads the rule of a line.
pub fn parse_query_launch_rule(line: &str) -> (r: Option<QueryLaunchRule>)
    ensures
        match rule_in(line@) {
            None => r is None,
            Some(model) => r matches Some(rule) && rule_model(rule) == model,
        },
{
    let chars = text::chars_of(line);
    match document::cut_chars(chars.as_slice(), "\t") {
        None => None,
        Some((query, target)) => {
            let q = text::trim_chars(query);
            let t = text::trim_chars(target);
            if q.len() > 0 && t.len() > 0 {
                Some(QueryLaunchRule { query: text::string_of(q), target: text::string_of(t) })
            } else {
                None
            }
        },
    }
}

/// A text with a space for every tab and line break.
pub open spec fn on_one_line(s: Seq<char>) -> Seq<char> {
    Seq::new(
        s.len(),
        |i: int|
            if s[i] == '\t' || s[i] == '\r' || s[i] == '\n' {
                ' '
            } else {
                s[i]
            },
    )
}

fn flatten(s: &str) -> (r: String)
    ensures
        r@ == on_one_line(s@),
{
    let chars = text::chars_of(s);
    let mut out = String::new();
    let mut i: usize = 0;
    while i < chars.len()
        invariant
            i <= chars.len(),
            out@ == on_one_line(chars@).take(i as int),
        decreases chars.len() - i,
    {
        let c = chars[i];
        out.push(
            if c == '\t' || c == '\r' || c == '\n' {
                ' '
            } else {
                c
            },
        );
        i += 1;
        proof {
            assert(out@ =~= on_one_line(chars@).take(i as int));
        }
    }
    proof {
        assert(out@ =~= on_one_line(chars@));
    }
    out
}

/// The text of the first `n` rules: a line for each that is not blank.
pub open spec fn rules_text(rules: Seq<(Seq<char>, Seq<char>)>, n: int) -> Seq<char>
    decreases n,
{
    if n <= 0 {
        Seq::empty()
    } else {
        let before = rules_text(rules, n - 1);
        let (query, target) = rules[n - 1];
        if text::trimmed(query).len() == 0 || text::trimmed(target).len() == 0 {
            before
        } else {
            before + on_one_line(query) + "\t"@ + on_one_line(target) + "\n"@
        }
    }
}

/// Writes rules, one to a line.
pub fn query_launch_rules_to_text(items: &[QueryLaunchRule]) -> (r: String)
    ensures
        r@ == rules_text(rule_models(items@), items@.len() as int),
{
    let ghost all = rule_models(items@);
    let mut out = String::new();
    let mut i: usize = 0;
    proof {
        assert(out@ =~= Seq::<char>::empty());
    }
    while i < items.len()
        invariant
            i <= items.len(),
            all == rule_models(items@),
            out@ == rules_text(all, i as int),
        decreases items.len() - i,
    {
        proof {
            assert(all[i as int] == rule_model(items@[i as int]));
        }
        let query = text::trim_text(items[i].query.as_str());
        let target = text::trim_text(items[i].target.as_str());
        if !query.as_str().is_empty() && !target.as_str().is_empty() {
            out.append(flatten(items[i].query.as_str()).as_str());
            out.append("\t");
            out.append(flatten(items[i].target.as_str()).as_str());
            out.append("\n");
        }
        i += 1;
    }
    out
}

/// Which lines hold a rule.
pub open spec fn rule_lines(all: Seq<Seq<char>>) -> Seq<bool> {
    Seq::new(all.len(), |i: int| rule_in(all[i]) is Some)
}

/// A text with its rules exchanged for the given ones; other lines stay.
pub fn merge_query_launch_rules_text(existing: &str, items: &[QueryLaunchRule]) -> (r: String)
    ensures
        r@ == document::merged(
            existing@,
            rule_lines(text::lines(existing@)),
            text::lines(rules_text(rule_models(items@), items@.len() as int)),
        ),
{
    let lines = text::split_lines(existing);
    let ghost all = text::lines(existing@);
    let mut known: Vec<bool> = Vec::new();
    let mut i: usize = 0;
    proof {
        assert(all.len() == lines@.len());
    }
    while i < lines.len()
        invariant
            i <= lines.len(),
            all == text::texts(lines@),
            all.len() == lines@.len(),
            known@ == rule_lines(all).take(i as int),
        decreases lines.len() - i,
    {
        proof {
            assert(all[i as int] == lines@[i as int]@);
        }
        known.push(
            match parse_query_launch_rule(lines[i].as_str()) {
                Some(_) => true,
                None => false,
            },
        );
        i += 1;
        proof {
            assert(known@ =~= rule_lines(all).take(i as int));
        }
    }
    proof {
        assert(known@ =~= rule_lines(all));
    }
    let replacement = text::split_lines(query_launch_rules_to_text(items).as_str());
    document::merge_known_lines(existing, known.as_slice(), replacement.as_slice())
}

// ---------------------------------------------------------------------------
// Lists of rules
// ---------------------------------------------------------------------------

/// A rule for the same query is among the given ones.
pub open spec fn has_query(rules: Seq<(Seq<char>, Seq<char>)>, key: Seq<char>) -> bool {
    exists|i: int| 0 <= i < rules.len() && text::fold((#[trigger] rules[i]).0) == key
}

/// The first `n` rules in order: trimmed, without blank ones, one for each query, up
/// to a limit.
pub open spec fn normalized(
    rules: Seq<(Seq<char>, Seq<char>)>,
    limit: int,
    n: int,
) -> Seq<(Seq<char>, Seq<char>)>
    decreases n,
{
    if n <= 0 {
        Seq::empty()
    } else {
        let before = normalized(rules, limit, n - 1);
        let query = text::trimmed(rules[n - 1].0);
        let target = text::trimmed(rules[n - 1].1);
        if (before.len() > 0 && before.len() >= limit) || query.len() == 0 || target.len() == 0
            || has_query(before, text::fold(query)) {
            before
        } else {
            before.push((query, target))
        }
    }
}

fn holds_query(rules: &[QueryLaunchRule], key: &str) -> (r: bool)
    ensures
        r == has_query(rule_models(rules@), key@),
{
    let ghost all = rule_models(rules@);
    let mut i: usize = 0;
    while i < rules.len()
        invariant
            i <= rules.len(),
            all == rule_models(rules@),
            forall|k: int| 0 <= k < i ==> text::fold((#[trigger] all[k]).0) != key@,
        decreases rules.len() - i,
    {
        let own = text::fold_text(rules[i].query.as_str());
        if text::same_text(own.as_str(), key) {
            proof {
                assert(text::fold(all[i as int].0) == key@);
            }
            return true;
        }
        i += 1;
    }
    false
}

/// Rules in order: trimmed, without blank ones, one for each query, up to a limit.
pub fn normalize_query_launch_rules(items: &[QueryLaunchRule], limit: usize) -> (r: Vec<
    QueryLaunchRule,
>)
    ensures
        rule_models(r@) == normalized(rule_models(items@), limit as int, items@.len() as int),
{
    let ghost all = rule_models(items@);
    let mut out: Vec<QueryLaunchRule> = Vec::new();
    let mut i: usize = 0;
    proof {
        assert(rule_models(out@) =~= Seq::<(Seq<char>, Seq<char>)>::empty());
    }
    while i < items.len()
        invariant
            i <= items.len(),
            all == rule_models(items@),
            rule_models(out@) == normalized(all, limit as int, i as int),
        decreases items.len() - i,
    {
        proof {
            assert(all[i as int] == rule_model(items@[i as int]));
            assert(rule_models(out@).len() == out@.len());
        }
        if out.len() == 0 || out.len() < limit {
            let query = text::trim_text(items[i].query.as_str());
            let target = text::trim_text(items[i].target.as_str());
            if !query.as_str().is_empty() && !target.as_str().is_empty() && !holds_query(
                out.as_slice(),
                text::fold_text(query.as_str()).as_str(),
            ) {
                push_rule(&mut out, QueryLaunchRule { query, target });
            }
        }
        i += 1;
    }
    out
}

/// The rules of a text.
pub fn read_query_launch_rules(content: &str, limit: usize) -> (r: Vec<QueryLaunchRule>)
    ensures
        rule_models(r@) == normalized(
            rules_in(text::lines(content@), text::lines(content@).len() as int),
            limit as int,
            rules_in(text::lines(content@), text::lines(content@).len() as int).len() as int,
        ),
{
    let lines = text::split_lines(content);
    let ghost all = text::lines(content@);
    let mut found: Vec<QueryLaunchRule> = Vec::new();
    let mut i: usize = 0;
    proof {
        assert(all.len() == lines@.len());
        assert(rule_models(found@) =~= Seq::<(Seq<char>, Seq<char>)>::empty());
    }
    while i < lines.len()
        invariant
            i <= lines.len(),
            all == text::texts(lines@),
            rule_models(found@) == rules_in(all, i as int),
        decreases lines.len() - i,
    {
        proof {
            assert(all[i as int] == lines@[i as int]@);
        }
        if let Some(rule) = parse_query_launch_rule(lines[i].as_str()) {
            push_rule(&mut found, rule);
        }
        i += 1;
    }
    proof {
        assert(rule_models(found@).len() == found@.len());
    }
    normalize_query_launch_rules(found.as_slice(), limit)
}

/// The rules of the first `n` lines.
pub open spec fn rules_in(all: Seq<Seq<char>>, n: int) -> Seq<(Seq<char>, Seq<char>)>
    decreases n,
{
    if n <= 0 {
        Seq::empty()
    } else {
        match rule_in(all[n - 1]) {
            Some(model) => rules_in(all, n - 1).push(model),
            None => rules_in(all, n - 1),
        }
    }
}

/// No two rules are for the same query.
pub open spec fn distinct_queries(rules: Seq<(Seq<char>, Seq<char>)>) -> bool {
    forall|i: int, j: int|
        0 <= i < j < rules.len() ==> text::fold((#[trigger] rules[i]).0) != text::fold(
            (#[trigger] rules[j]).0,
        )
}

/// Rules in order are for different queries.
pub proof fn lemma_normalized_distinct(rules: Seq<(Seq<char>, Seq<char>)>, limit: int, n: int)
    ensures
        distinct_queries(normalized(rules, limit, n)),
    decreases n,
{
    if n > 0 {
        lemma_normalized_distinct(rules, limit, n - 1);
        let before = normalized(rules, limit, n - 1);
        let all = normalized(rules, limit, n);
        assert forall|i: int, j: int| 0 <= i < j < all.len() implies text::fold(
            (#[trigger] all[i]).0,
        ) != text::fold((#[trigger] all[j]).0) by {
            assert(all[i] == before[i]);
            if j < before.len() {
                assert(all[j] == before[j]);
            } else {
                assert(text::fold(before[i].0) != text::fold(all[j].0)) by {
                    if text::fold(before[i].0) == text::fold(all[j].0) {
                        assert(has_query(before, text::fold(all[j].0)));
                    }
                }
            }
        }
    }
}

/// The first `n` rules but those for a query.
pub open spec fn without_query(
    rules: Seq<(Seq<char>, Seq<char>)>,
    key: Seq<char>,
    n: int,
) -> Seq<(Seq<char>, Seq<char>)>
    decreases n,
{
    if n <= 0 {
        Seq::empty()
    } else if text::fold(rules[n - 1].0) == key {
        without_query(rules, key, n - 1)
    } else {
        without_query(rules, key, n - 1).push(rules[n - 1])
    }
}

/// Rules with one put in front; others for its query go, and no more are kept than
/// a limit.
pub open spec fn upserted(
    rules: Seq<(Seq<char>, Seq<char>)>,
    query: Seq<char>,
    target: Seq<char>,
    limit: int,
) -> Seq<(Seq<char>, Seq<char>)> {
    let q = text::trimmed(query);
    let t = text::trimmed(target);
    if q.len() == 0 || t.len() == 0 {
        rules
    } else {
        ordering::first(
            seq![(q, t)] + without_query(rules, text::fold(q), rules.len() as int),
            limit,
        )
    }
}

/// Puts a rule in front of those for other queries.
pub fn upsert_query_launch_rule(
    rules: &mut Vec<QueryLaunchRule>,
    query: &str,
    target: &str,
    limit: usize,
)
    ensures
        rule_models(final(rules)@) == upserted(
            rule_models(old(rules)@),
            query@,
            target@,
            limit as int,
        ),
{
    let q = text::trim_text(query);
    let t = text::trim_text(target);
    if q.as_str().is_empty() || t.as_str().is_empty() {
        return;
    }
    let key = text::fold_text(q.as_str());
    let ghost all = rule_models(rules@);
    let mut kept: Vec<QueryLaunchRule> = Vec::new();
    let mut i: usize = 0;
    proof {
        assert(rule_models(kept@) =~= Seq::<(Seq<char>, Seq<char>)>::empty());
        assert(all.len() == rules@.len());
    }
    while i < rules.len()
        invariant
            i <= rules.len(),
            rules@ == old(rules)@,
            all == rule_models(rules@),
            all.len() == rules@.len(),
            rule_models(kept@) == without_query(all, key@, i as int),
        decreases rules.len() - i,
    {
        proof {
            assert(all[i as int] == rule_model(rules@[i as int]));
        }
        let own = text::fold_text(rules[i].query.as_str());
        if !text::same_text(own.as_str(), key.as_str()) {
            push_rule(&mut kept, rules[i].copy());
        }
        i += 1;
    }
    let ghost rest = rule_models(kept@);
    let ghost model = (q@, t@);
    kept.insert(0, QueryLaunchRule { query: q, target: t });
    proof {
        assert(rule_models(kept@) =~= seq![model] + rest);
        assert(rule_models(kept@).len() == kept@.len());
    }
    let ghost whole = rule_models(kept@);
    if kept.len() > limit {
        kept.truncate(limit);
        proof {
            assert(rule_models(kept@) =~= whole.take(limit as int));
        }
    }
    *rules = kept;
}

fn same_rules(a: &[QueryLaunchRule], b: &[QueryLaunchRule]) -> (r: bool)
    ensures
        r == (rule_models(a@) == rule_models(b@)),
{
    let ghost x = rule_models(a@);
    let ghost y = rule_models(b@);
    if a.len() != b.len() {
        proof {
            assert(x.len() != y.len());
        }
        return false;
    }
    let mut i: usize = 0;
    while i < a.len()
        invariant
            i <= a.len(),
            a@.len() == b@.len(),
            x == rule_models(a@),
            y == rule_models(b@),
            forall|k: int| 0 <= k < i ==> x[k] == y[k],
        decreases a.len() - i,
    {
        if !text::same_text(a[i].query.as_str(), b[i].query.as_str()) || !text::same_text(
            a[i].target.as_str(),
            b[i].target.as_str(),
        ) {
            proof {
                assert(x[i as int] != y[i as int]);
            }
            return false;
        }
        i += 1;
    }
    proof {
        assert(x =~= y);
    }
    true
}

fn copy_rules(v: &[QueryLaunchRule]) -> (r: Vec<QueryLaunchRule>)
    ensures
        r@ == v@,
{
    let mut out: Vec<QueryLaunchRule> = Vec::new();
    let mut i: usize = 0;
    while i < v.len()
        invariant
            i <= v.len(),
            out@ == v@.take(i as int),
        decreases v.len() - i,
    {
        out.push(v[i].copy());
        i += 1;
        proof {
            assert(out@ =~= v@.take(i as int));
        }
    }
    proof {
        assert(out@ =~= v@);
    }
    out
}

/// Notes what a query launched, unless it is blank or meant for a plugin, and says
/// whether anything changed.
pub fn record_query_launch_rule_in_memory(
    rules: &mut Vec<QueryLaunchRule>,
    query: &str,
    target: &str,
    is_plugin_query: bool,
    limit: usize,
) -> (r: bool)
    ensures
        rule_models(final(rules)@) == (if text::trimmed(query@).len() == 0 || is_plugin_query {
            rule_models(old(rules)@)
        } else {
            upserted(rule_models(old(rules)@), text::trimmed(query@), target@, limit as int)
        }),
        r == (rule_models(final(rules)@) != rule_models(old(rules)@)),
{
    let plain = text::trim_text(query);
    if plain.as_str().is_empty() || is_plugin_query {
        return false;
    }
    let before = copy_rules(rules.as_slice());
    upsert_query_launch_rule(rules, plain.as_str(), target, limit);
    !same_rules(rules.as_slice(), before.as_slice())
}

/// Makes a list of rules the same as another.
pub fn sync_query_launch_rules_model_from_runtime(
    config_rules: &mut Vec<QueryLaunchRule>,
    runtime_rules: &[QueryLaunchRule],
)
    ensures
        rule_models(final(config_rules)@) == rule_models(runtime_rules@),
{
    if !same_rules(config_rules.as_slice(), runtime_rules) {
        *config_rules = copy_rules(runtime_rules);
    }
}

/// The form in which targets are compared.
pub open spec fn target_key(value: Seq<char>) -> Seq<char> {
    text::fold(root_ownership::backslashed(text::trimmed(value)))
}

fn target_key_of(value: &str) -> (r: String)
    ensures
        r@ == target_key(value@),
{
    let chars = text::chars_of(value);
    let plain = root_ownership::backslash(text::trim_chars(chars.as_slice()));
    text::fold_text(text::string_of(plain.as_slice()).as_str())
}

/// The first `n` rules but those for a query with a target.
pub open spec fn without_rule(
    rules: Seq<(Seq<char>, Seq<char>)>,
    query: Seq<char>,
    target: Seq<char>,
    n: int,
) -> Seq<(Seq<char>, Seq<char>)>
    decreases n,
{
    if n <= 0 {
        Seq::empty()
    } else if text::fold(rules[n - 1].0) == query && target_key(rules[n - 1].1) == target {
        without_rule(rules, query, target, n - 1)
    } else {
        without_rule(rules, query, target, n - 1).push(rules[n - 1])
    }
}

/// Takes the rules for a query with a target away, and says whether there were any.
pub fn remove_query_launch_rule(rules: &mut Vec<QueryLaunchRule>, query: &str, target: &str) -> (r:
    bool)
    ensures
        ({
            let key = text::fold(text::trimmed(query@));
            let all = rule_models(old(rules)@);
            &&& rule_models(final(rules)@) == (if key.len() == 0 {
                all
            } else {
                without_rule(all, key, target_key(target@), all.len() as int)
            })
            &&& r == (final(rules)@.len() != old(rules)@.len())
        }),
{
    let key = text::fold_text(text::trim_text(query).as_str());
    if key.as_str().is_empty() {
        return false;
    }
    let wanted = target_key_of(target);
    let ghost all = rule_models(rules@);
    let mut kept: Vec<QueryLaunchRule> = Vec::new();
    let mut i: usize = 0;
    proof {
        assert(rule_models(kept@) =~= Seq::<(Seq<char>, Seq<char>)>::empty());
        assert(all.len() == rules@.len());
    }
    while i < rules.len()
        invariant
            i <= rules.len(),
            rules@ == old(rules)@,
            all == rule_models(rules@),
            all.len() == rules@.len(),
            rule_models(kept@) == without_rule(all, key@, wanted@, i as int),
        decreases rules.len() - i,
    {
        proof {
            assert(all[i as int] == rule_model(rules@[i as int]));
        }
        let own = text::fold_text(rules[i].query.as_str());
        let own_target = target_key_of(rules[i].target.as_str());
        if !text::same_text(own.as_str(), key.as_str()) || !text::same_text(
            own_target.as_str(),
            wanted.as_str(),
        ) {
            push_rule(&mut kept, rules[i].copy());
        }
        i += 1;
    }
    let changed = kept.len() != rules.len();
    *rules = kept;
    changed
}

/// The first rule from `from` on for a query.
pub open spec fn rule_for(rules: Seq<(Seq<char>, Seq<char>)>, key: Seq<char>, from: int) -> Option<int>
    decreases rules.len() - from,
{
    if from < 0 || from >= rules.len() {
        None
    } else if text::fold(rules[from].0) == key {
        Some(from)
    } else {
        rule_for(rules, key, from + 1)
    }
}

/// The first rule for a query; none for a blank one.
pub fn query_launch_rule_for_query<'a>(rules: &'a [QueryLaunchRule], query: &str) -> (r: Option<
    &'a QueryLaunchRule,
>)
    ensures
        ({
            let key = text::fold(text::trimmed(query@));
            match rule_for(rule_models(rules@), key, 0) {
                Some(i) if key.len() > 0 => r matches Some(rule) && 0 <= i < rules@.len() && *rule
                    == rules@[i],
                _ => r is None,
            }
        }),
{
    let key = text::fold_text(text::trim_text(query).as_str());
    if key.as_str().is_empty() {
        return None;
    }
    let ghost all = rule_models(rules@);
    let mut i: usize = 0;
    while i < rules.len()
        invariant
            i <= rules.len(),
            all == rule_models(rules@),
            key@ == text::fold(text::trimmed(query@)),
            key@.len() > 0,
            rule_for(all, key@, 0) == rule_for(all, key@, i as int),
        decreases rules.len() - i,
    {
        proof {
            assert(all[i as int] == rule_model(rules@[i as int]));
        }
        let own = text::fold_text(rules[i].query.as_str());
        if text::same_text(own.as_str(), key.as_str()) {
            return Some(&rules[i]);
        }
        i += 1;
    }
    None
}

/// What was noted for a query is found for it.
pub proof fn lemma_noted_rule_is_found(
    rules: Seq<(Seq<char>, Seq<char>)>,
    query: Seq<char>,
    target: Seq<char>,
    limit: int,
)
    requires
        text::trimmed(query).len() > 0,
        text::trimmed(target).len() > 0,
        limit > 0,
    ensures
        rule_for(
            upserted(rules, query, target, limit),
            text::fold(text::trimmed(query)),
            0,
        ) == Some(0int),
        upserted(rules, query, target, limit)[0] == (text::trimmed(query), text::trimmed(target)),
{
    let all = upserted(rules, query, target, limit);
    assert(all[0] == (text::trimmed(query), text::trimmed(target)));
}

// ---------------------------------------------------------------------------
// Choosing rules in a list
// ---------------------------------------------------------------------------

/// The words of a filter.
pub open spec fn filter_words(filter: Seq<char>) -> Seq<Seq<char>> {
    text::words(text::searchable(filter))
}

/// The words of a filter.
pub fn query_launch_rule_filter_tokens(filter: &str) -> (r: Vec<String>)
    ensures
        text::texts(r@) == filter_words(filter@),
{
    text::split_whitespace(text::searchable_text(filter).as_str())
}

/// A rule that has all words of a filter.
pub open spec fn matches_words(rule: (Seq<char>, Seq<char>), words: Seq<Seq<char>>) -> bool {
    let searched = text::searchable(rule.0 + " "@ + rule.1);
    forall|i: int| 0 <= i < words.len() ==> text::has_infix(searched, #[trigger] words[i])
}

/// Whether a rule has all words of a filter.
pub fn query_launch_rule_matches_filter(rule: &QueryLaunchRule, filter: &str) -> (r: bool)
    ensures
        r == matches_words(rule_model(*rule), filter_words(filter@)),
{
    let words = query_launch_rule_filter_tokens(filter);
    let ghost all = filter_words(filter@);
    let searched = text::searchable_text(
        text::cat3(rule.query.as_str(), " ", rule.target.as_str()).as_str(),
    );
    let hay = text::chars_of(searched.as_str());
    let mut i: usize = 0;
    proof {
        assert(all.len() == words@.len());
    }
    while i < words.len()
        invariant
            i <= words.len(),
            all == text::texts(words@),
            all.len() == words@.len(),
            all == filter_words(filter@),
            hay@ == text::searchable(rule.query@ + " "@ + rule.target@),
            forall|k: int| 0 <= k < i ==> text::has_infix(hay@, #[trigger] all[k]),
        decreases words.len() - i,
    {
        let word = text::chars_of(words[i].as_str());
        proof {
            assert(all[i as int] == word@);
        }
        if !text::contains_chars(hay.as_slice(), word.as_slice()) {
            return false;
        }
        i += 1;
    }
    true
}

/// Which rules a filter lets through.
pub open spec fn let_through(rules: Seq<QueryLaunchRule>, filter: Seq<char>) -> Seq<bool> {
    Seq::new(rules.len(), |i: int| matches_words(rule_model(rules[i]), filter_words(filter)))
}

/// The places of the rules that a filter lets through.
pub fn query_launch_rule_visible_indices(rules: &[QueryLaunchRule], filter: &str) -> (r: Vec<usize>)
    ensures
        recents::place_values(r@) == document::marked(
            let_through(rules@, filter@),
            rules@.len() as int,
        ),
{
    let ghost marks = let_through(rules@, filter@);
    let mut out: Vec<usize> = Vec::new();
    let mut i: usize = 0;
    proof {
        assert(recents::place_values(out@) =~= Seq::<int>::empty());
    }
    while i < rules.len()
        invariant
            i <= rules.len(),
            marks == let_through(rules@, filter@),
            recents::place_values(out@) == document::marked(marks, i as int),
        decreases rules.len() - i,
    {
        let ghost before = out@;
        if query_launch_rule_matches_filter(&rules[i], filter) {
            out.push(i);
            proof {
                assert(recents::place_values(out@) =~= recents::place_values(before).push(
                    i as int,
                ));
            }
        }
        i += 1;
    }
    out
}

/// The places behind the first `n` chosen rows.
pub open spec fn chosen_places(visible: Seq<usize>, chosen: Seq<usize>, n: int) -> Seq<usize>
    decreases n,
{
    if n <= 0 {
        Seq::empty()
    } else if chosen[n - 1] < visible.len() {
        chosen_places(visible, chosen, n - 1).push(visible[chosen[n - 1] as int])
    } else {
        chosen_places(visible, chosen, n - 1)
    }
}

/// The places of the rules that stand in chosen rows.
pub fn query_launch_rule_actual_indices_for_visible_selection(
    visible_indices: &[usize],
    selected_visible_indices: &[usize],
) -> (r: Vec<usize>)
    ensures
        r@ == chosen_places(
            visible_indices@,
            selected_visible_indices@,
            selected_visible_indices@.len() as int,
        ),
{
    let mut out: Vec<usize> = Vec::new();
    let mut i: usize = 0;
    while i < selected_visible_indices.len()
        invariant
            i <= selected_visible_indices.len(),
            out@ == chosen_places(visible_indices@, selected_visible_indices@, i as int),
        decreases selected_visible_indices.len() - i,
    {
        let row: usize = selected_visible_indices[i];
        if row < visible_indices.len() {
            out.push(visible_indices[row]);
        }
        i += 1;
    }
    out
}

/// The first `n` rules but those at the given places.
pub open spec fn without_places(
    rules: Seq<QueryLaunchRule>,
    places: Seq<usize>,
    n: int,
) -> Seq<QueryLaunchRule>
    decreases n,
{
    if n <= 0 {
        Seq::empty()
    } else if places.contains((n - 1) as usize) {
        without_places(rules, places, n - 1)
    } else {
        without_places(rules, places, n - 1).push(rules[n - 1])
    }
}

/// Takes the rules at the given places away, and says how many there were.
pub fn delete_query_launch_rules_by_indices(rules: &mut Vec<QueryLaunchRule>, indices: &[usize]) -> (r:
    usize)
    ensures
        final(rules)@ == without_places(old(rules)@, indices@, old(rules)@.len() as int),
        r == old(rules)@.len() - final(rules)@.len(),
{
    let mut kept: Vec<QueryLaunchRule> = Vec::new();
    let mut i: usize = 0;
    while i < rules.len()
        invariant
            i <= rules.len(),
            rules@ == old(rules)@,
            kept@.len() <= i,
            kept@ == without_places(old(rules)@, indices@, i as int),
        decreases rules.len() - i,
    {
        let mut found = false;
        let mut k: usize = 0;
        while k < indices.len() && !found
            invariant
                k <= indices.len(),
                found ==> indices@.contains(i),
                !found ==> forall|m: int| 0 <= m < k ==> indices@[m] != i,
            decreases indices.len() - k,
        {
            if indices[k] == i {
                found = true;
            }
            k += 1;
        }
        if !found {
            kept.push(rules[i].copy());
        }
        i += 1;
    }
    let deleted: usize = rules.len() - kept.len();
    *rules = kept;
    deleted
}

/// How many rules are chosen, shown and there.
pub fn query_launch_rule_selection_count_text(
    wording: &Wording,
    selected: usize,
    showing: usize,
    total: usize,
) -> (r: String)
    ensures
        r@ == wording.said_with(
            "Selected: {} | Showing: {} | Total: {}"@,
            seq![
                text::decimal(selected as int),
                text::decimal(showing as int),
                text::decimal(total as int),
            ],
        ),
        wording.is_source() ==> r@ == "Selected: "@ + text::decimal(selected as int)
            + " | Showing: "@ + text::decimal(showing as int) + " | Total: "@ + text::decimal(
            total as int,
        ),
{
    proof {
        if wording.is_source() {
            reveal_strlit("Selected: {} | Showing: {} | Total: {}");
            reveal_strlit("{}");
            reveal_strlit("Selected: ");
            reveal_strlit(" | Showing: ");
            reveal_strlit(" | Total: ");
            assert("Selected: {} | Showing: {} | Total: {}"@ =~= "Selected: "@ + "{}"@
                + " | Showing: "@ + "{}"@ + " | Total: "@ + "{}"@);
            wording::lemma_source_three(
                *wording,
                "Selected: {} | Showing: {} | Total: {}"@,
                seq!["Selected: "@, " | Showing: "@, " | Total: "@],
                seq![
                    text::decimal(selected as int),
                    text::decimal(showing as int),
                    text::decimal(total as int),
                ],
            );
        }
    }
    wording.say_with_three(
        "Selected: {} | Showing: {} | Total: {}",
        text::decimal_u64(selected as u64).as_str(),
        text::decimal_u64(showing as u64).as_str(),
        text::decimal_u64(total as u64).as_str(),
    )
}

// ---------------------------------------------------------------------------
// Results of rules
// ---------------------------------------------------------------------------

/// What is known of a path that exists.
#[derive(Clone, Copy, Debug, PartialEq, Eq, Structural)]
pub struct PathState {
    pub is_dir: bool,
    pub modified_at: Option<i64>,
}

/// The folder of a path as a search folder of its own.
pub open spec fn own_folder(
    root: IndexRoot,
    path: Seq<char>,
    default_depth: usize,
    label: Seq<char>,
) -> bool {
    &&& root.raw@ == (match winpath::parent(path) {
        Some(folder) => folder,
        None => Seq::empty(),
    })
    &&& (match winpath::parent(path) {
        Some(folder) => root.path matches Some(p) && p@ == folder,
        None => root.path is None,
    })
    &&& root.enabled
    &&& root.score == 0
    &&& root.max_depth == default_depth
    &&& root.label@ == label
    &&& root.keywords@.len() == 0
}

/// The folder of a path as a search folder of its own.
pub fn folder_of_path(path: &str, default_depth: usize, label: &str) -> (r: IndexRoot)
    ensures
        own_folder(r, path@, default_depth, label@),
{
    let folder = winpath::parent_of(path);
    let raw: String = match &folder {
        Some(f) => f.clone(),
        None => String::new(),
    };
    proof {
        if folder is None {
            assert(raw@ =~= Seq::<char>::empty());
        }
    }
    IndexRoot {
        raw,
        path: folder,
        enabled: true,
        score: 0,
        max_depth: default_depth,
        label: label.to_owned(),
        keywords: Vec::new(),
    }
}

/// The result of an item that a rule pins.
pub open spec fn pins(
    result: SearchResult,
    item: LaunchItem,
    include_explanation: bool,
    wording: Wording,
) -> bool {
    &&& result.title@ == item.title@
    &&& result.subtitle@ == item.subtitle@
    &&& result.target matches LaunchTarget::Path(path) && path@ == item.path@
    &&& result.is_dir == item.is_dir
    &&& result.from_history
    &&& result.from_query_launch_rule
    &&& result.ranking_kind == ResultRankingKind::QueryLaunchRule
    &&& result.display_score == item.index_score
    &&& result.score_detail@ == "starred"@
    &&& result.score == item.index_score
    &&& (result.explanation is Some) == include_explanation
    &&& result.explanation matches Some(e) ==> explanation::is_special(
        e,
        ResultRankingKind::QueryLaunchRule,
        ""@,
        item.path@,
        match item.search_root {
            Some(root) => root@,
            None => ""@,
        },
        item.relative_depth,
        item.index_score,
        wording,
    )
}

fn pinned_result(
    item: LaunchItem,
    include_explanation: bool,
    wording: &Wording,
) -> (r: SearchResult)
    ensures
        pins(r, item, include_explanation, *wording),
{
    let explanation = if include_explanation {
        Some(
            explanation::special_item_score_explanation(
                ResultRankingKind::QueryLaunchRule,
                "",
                &item,
                item.index_score,
                wording,
            ),
        )
    } else {
        None
    };
    SearchResult {
        title: item.title,
        subtitle: item.subtitle,
        target: LaunchTarget::Path(item.path),
        is_dir: item.is_dir,
        from_history: true,
        from_query_launch_rule: true,
        ranking_kind: ResultRankingKind::QueryLaunchRule,
        explanation,
        display_score: item.index_score,
        score_detail: "starred".to_owned(),
        score: item.index_score,
    }
}

/// The path that the rule for a query launches, if there is one.
pub open spec fn ruled_path(rules: Seq<QueryLaunchRule>, query: Seq<char>) -> Option<Seq<char>> {
    let key = text::fold(text::trimmed(query));
    match rule_for(rule_models(rules), key, 0) {
        Some(i) => if key.len() > 0 {
            Some(text::trimmed(rules[i].target@))
        } else {
            None
        },
        None => None,
    }
}

/// The path that the rule for a query launches.
pub fn query_launch_rule_path(rules: &[QueryLaunchRule], query: &str) -> (r: Option<String>)
    ensures
        match ruled_path(rules@, query@) {
            Some(path) => r matches Some(found) && found@ == path,
            None => r is None,
        },
{
    match query_launch_rule_for_query(rules, query) {
        Some(rule) => Some(text::trim_text(rule.target.as_str())),
        None => None,
    }
}

/// The row that a launch rule gives for a query: none where no rule is for it, its
/// path is not there, or the path has no name.
pub open spec fn is_ruled_row(
    row: Option<SearchResult>,
    query: Seq<char>,
    rules: Seq<QueryLaunchRule>,
    state: Option<PathState>,
    default_depth: usize,
    working_directory: Seq<char>,
    include_explanation: bool,
    wording: Wording,
) -> bool {
    match (ruled_path(rules, query), state) {
        (Some(path), Some(known)) => match row {
            None => items::candidate_title(path, winpath::file_name(path)).len() == 0,
            Some(result) => items::candidate_title(path, winpath::file_name(path)).len() > 0
                && exists|root: IndexRoot, item: LaunchItem|
                #![trigger pins(result, item, include_explanation, wording), own_folder(root, path, default_depth, "Query Launch Rules"@)]
                own_folder(root, path, default_depth, "Query Launch Rules"@)
                    && items::item_of_path(
                    item,
                    path,
                    known.is_dir,
                    root,
                    known.modified_at,
                    working_directory,
                ) && pins(result, item, include_explanation, wording),
        },
        _ => row is None,
    }
}

/// The result of the rule for a query, where it is known what its path is; none where
/// there is no rule or nothing stands at the path.
pub fn query_launch_rule_result_with_explanation(
    query: &str,
    rules: &[QueryLaunchRule],
    state: Option<PathState>,
    default_depth: usize,
    working_directory: &str,
    include_explanation: bool,
    wording: &Wording,
) -> (r: Option<SearchResult>)
    ensures
        is_ruled_row(
            r,
            query@,
            rules@,
            state,
            default_depth,
            working_directory@,
            include_explanation,
            *wording,
        ),
{
    let path = match query_launch_rule_path(rules, query) {
        Some(path) => path,
        None => {
            return None;
        },
    };
    match state {
        None => None,
        Some(known) => {
            let root = folder_of_path(path.as_str(), default_depth, "Query Launch Rules");
            match items::launch_item_from_path_with_type(
                path.as_str(),
                known.is_dir,
                &root,
                known.modified_at,
                working_directory,
            ) {
                None => None,
                Some(item) => Some(pinned_result(item, include_explanation, wording)),
            }
        },
    }
}

/// The form in which the target of a result is compared.
pub open spec fn target_key_in(result: SearchResult) -> Option<Seq<char>> {
    match results::target_path(result) {
        Some(path) => Some(text::fold(path)),
        None => None,
    }
}

/// The first `n` results but those with a target.
pub open spec fn without_target(
    all: Seq<SearchResult>,
    key: Seq<char>,
    n: int,
) -> Seq<SearchResult>
    decreases n,
{
    if n <= 0 {
        Seq::empty()
    } else if target_key_in(all[n - 1]) == Some(key) {
        without_target(all, key, n - 1)
    } else {
        without_target(all, key, n - 1).push(all[n - 1])
    }
}

/// A list with a row put first in the place of all with its target.
pub open spec fn prioritized(list: Seq<SearchResult>, priority: SearchResult) -> Seq<SearchResult> {
    match target_key_in(priority) {
        None => list,
        Some(key) => seq![priority] + without_target(list, key, list.len() as int),
    }
}

/// Puts a result in front of those with other targets. One without a path changes
/// nothing.
pub fn prioritize_result(list: Vec<SearchResult>, priority: SearchResult) -> (r: Vec<SearchResult>)
    ensures
        r@ == prioritized(list@, priority),
{
    let path = match results::result_target_path(&priority) {
        Some(path) => path,
        None => {
            return list;
        },
    };
    let key = recents::recent_item_key(path.as_str());
    let ghost all = list@;
    let mut source = list;
    let mut back: Vec<SearchResult> = Vec::new();
    while source.len() > 0
        invariant
            source@.len() + back@.len() == all.len(),
            source@ == all.take(source@.len() as int),
            back@ == all.skip(source@.len() as int).reverse(),
        decreases source@.len(),
    {
        let ghost left = source@.len() as int;
        let ghost behind = back@;
        match source.pop() {
            Some(item) => {
                proof {
                    assert(item == all[left - 1]);
                }
                back.push(item);
                proof {
                    assert(back@ =~= all.skip(left - 1).reverse());
                }
            },
            None => {},
        }
    }
    let mut out: Vec<SearchResult> = Vec::new();
    out.push(priority);
    let ghost mut done: int = 0;
    proof {
        assert(all.skip(0) =~= all);
        assert(out@ =~= seq![priority] + without_target(all, key@, 0));
    }
    while back.len() > 0
        invariant
            0 <= done <= all.len(),
            back@ == all.skip(done).reverse(),
            out@ == seq![priority] + without_target(all, key@, done),
        decreases back@.len(),
    {
        let ghost behind = back@;
        match back.pop() {
            Some(item) => {
                proof {
                    assert(item == all[done]);
                    assert(back@ =~= all.skip(done + 1).reverse());
                }
                let same = match results::result_target_path(&item) {
                    Some(own) => {
                        let own_key = recents::recent_item_key(own.as_str());
                        text::same_text(own_key.as_str(), key.as_str())
                    },
                    None => false,
                };
                let ghost before = out@;
                if !same {
                    out.push(item);
                }
                proof {
                    done = done + 1;
                    assert(out@ =~= seq![priority] + without_target(all, key@, done));
                }
            },
            None => {},
        }
    }
    proof {
        assert(done == all.len());
    }
    out
}

// ---------------------------------------------------------------------------
// Queries typed before
// ---------------------------------------------------------------------------

/// A line that is not blank and no comment.
pub open spec fn is_history_line(line: Seq<char>) -> bool {
    let plain = text::trimmed(line);
    plain.len() > 0 && plain[0] != '#' && plain[0] != ';'
}

/// Which lines hold a query.
pub open spec fn history_lines(all: Seq<Seq<char>>) -> Seq<bool> {
    Seq::new(all.len(), |i: int| is_history_line(all[i]))
}

fn marks_of_history(lines: &[String]) -> (r: Vec<bool>)
    ensures
        r@ == history_lines(text::texts(lines@)),
{
    let ghost all = text::texts(lines@);
    let mut known: Vec<bool> = Vec::new();
    let mut i: usize = 0;
    while i < lines.len()
        invariant
            i <= lines.len(),
            all == text::texts(lines@),
            known@ == history_lines(all).take(i as int),
        decreases lines.len() - i,
    {
        let chars = text::chars_of(lines[i].as_str());
        proof {
            assert(all[i as int] == chars@);
        }
        let plain = text::trim_chars(chars.as_slice());
        known.push(plain.len() > 0 && plain[0] != '#' && plain[0] != ';');
        i += 1;
        proof {
            assert(known@ =~= history_lines(all).take(i as int));
        }
    }
    proof {
        assert(known@ =~= history_lines(all));
    }
    known
}

/// Writes queries, one to a line.
pub fn search_history_items_to_text(items: &[String]) -> (r: String)
    ensures
        r@ == recents::text_of(text::texts(items@)),
{
    recents::recent_items_to_text(items)
}

/// A text with its queries exchanged for the given ones; comments and blank lines
/// stay.
pub fn merge_search_history_items_text(existing: &str, items: &[String]) -> (r: String)
    ensures
        r@ == document::merged(
            existing@,
            history_lines(text::lines(existing@)),
            text::lines(recents::text_of(text::texts(items@))),
        ),
{
    let lines = text::split_lines(existing);
    let known = marks_of_history(lines.as_slice());
    let replacement = text::split_lines(search_history_items_to_text(items).as_str());
    document::merge_known_lines(existing, known.as_slice(), replacement.as_slice())
}

/// A query is among the given ones.
pub open spec fn has_folded(items: Seq<Seq<char>>, key: Seq<char>) -> bool {
    exists|i: int| 0 <= i < items.len() && text::fold(#[trigger] items[i]) == key
}

/// The first `n` queries in order: trimmed, without blank ones and those meant for a
/// plugin, each once, up to a limit.
pub open spec fn normalized_history(
    items: Seq<Seq<char>>,
    for_plugin: Seq<bool>,
    limit: int,
    n: int,
) -> Seq<Seq<char>>
    decreases n,
{
    if n <= 0 {
        Seq::empty()
    } else {
        let before = normalized_history(items, for_plugin, limit, n - 1);
        let line = text::trimmed(items[n - 1]);
        if (before.len() > 0 && before.len() >= limit) || line.len() == 0 || for_plugin[n - 1]
            || has_folded(before, text::fold(line)) {
            before
        } else {
            before.push(line)
        }
    }
}

fn holds_folded(items: &[String], key: &str) -> (r: bool)
    ensures
        r == has_folded(text::texts(items@), key@),
{
    let ghost all = text::texts(items@);
    let mut i: usize = 0;
    while i < items.len()
        invariant
            i <= items.len(),
            all == text::texts(items@),
            forall|k: int| 0 <= k < i ==> text::fold(#[trigger] all[k]) != key@,
        decreases items.len() - i,
    {
        let own = text::fold_text(items[i].as_str());
        if text::same_text(own.as_str(), key) {
            proof {
                assert(text::fold(all[i as int]) == key@);
            }
            return true;
        }
        i += 1;
    }
    false
}

/// Queries in order, of which it is known which are meant for a plugin.
pub fn normalize_search_history_items(items: &[String], for_plugin: &[bool], limit: usize) -> (r: Vec<
    String,
>)
    requires
        for_plugin@.len() == items@.len(),
    ensures
        text::texts(r@) == normalized_history(
            text::texts(items@),
            for_plugin@,
            limit as int,
            items@.len() as int,
        ),
{
    let ghost all = text::texts(items@);
    let mut out: Vec<String> = Vec::new();
    let mut i: usize = 0;
    proof {
        assert(text::texts(out@) =~= Seq::<Seq<char>>::empty());
    }
    while i < items.len()
        invariant
            i <= items.len(),
            for_plugin@.len() == items@.len(),
            all == text::texts(items@),
            text::texts(out@) == normalized_history(all, for_plugin@, limit as int, i as int),
        decreases items.len() - i,
    {
        proof {
            assert(all[i as int] == items@[i as int]@);
            assert(text::texts(out@).len() == out@.len());
        }
        if (out.len() == 0 || out.len() < limit) && !for_plugin[i] {
            let line = text::trim_text(items[i].as_str());
            if !line.as_str().is_empty() && !holds_folded(
                out.as_slice(),
                text::fold_text(line.as_str()).as_str(),
            ) {
                let ghost before = out@;
                out.push(line);
                proof {
                    assert(text::texts(out@) =~= text::texts(before).push(line@));
                }
            }
        }
        i += 1;
    }
    out
}

/// A list with the row of the launch rule for a query put first, where there is one.
pub open spec fn rule_put_first(
    r: Seq<SearchResult>,
    list: Seq<SearchResult>,
    query: Seq<char>,
    rules: Seq<QueryLaunchRule>,
    state: Option<PathState>,
    default_depth: usize,
    working_directory: Seq<char>,
    include_explanation: bool,
    wording: Wording,
) -> bool {
    exists|row: Option<SearchResult>| #[trigger]
        is_ruled_row(
            row,
            query,
            rules,
            state,
            default_depth,
            working_directory,
            include_explanation,
            wording,
        ) && r == (match row {
            Some(priority) => prioritized(list, priority),
            None => list,
        })
}

/// Puts the row of the launch rule for a query first.
pub fn prioritize_query_launch_rule_result(
    list: Vec<SearchResult>,
    query: &str,
    rules: &[QueryLaunchRule],
    state: Option<PathState>,
    default_depth: usize,
    working_directory: &str,
    include_explanation: bool,
    wording: &Wording,
) -> (r: Vec<SearchResult>)
    ensures
        rule_put_first(
            r@,
            list@,
            query@,
            rules@,
            state,
            default_depth,
            working_directory@,
            include_explanation,
            *wording,
        ),
{
    let row = query_launch_rule_result_with_explanation(
        query,
        rules,
        state,
        default_depth,
        working_directory,
        include_explanation,
        wording,
    );
    proof {
        assert(is_ruled_row(
            row,
            query@,
            rules@,
            state,
            default_depth,
            working_directory@,
            include_explanation,
            *wording,
        ));
    }
    match row {
        Some(priority) => prioritize_result(list, priority),
        None => list,
    }
}


// ---------------------------------------------------------------------------
// Rules are read back
// ---------------------------------------------------------------------------

/// A text that a line can hold as it is: trimmed, not blank, and without a tab or line
/// break.
pub open spec fn fits_a_line(s: Seq<char>) -> bool {
    &&& text::trimmed(s) == s
    &&& s.len() > 0
    &&& !s.contains('\t')
    &&& !s.contains('\r')
    &&& !s.contains('\n')
}

/// A rule is read back from its line.
pub proof fn lemma_rule_line_round_trip(query: Seq<char>, target: Seq<char>)
    requires
        fits_a_line(query),
        fits_a_line(target),
    ensures
        rule_in(query + "\t"@ + target) == Some((query, target)),
{
    reveal_strlit("\t");
    let line = query + "\t"@ + target;
    let n = query.len() as int;
    assert(line.subrange(n, n + 1) =~= "\t"@);
    assert forall|k: int| 0 <= k < n implies !text::occurs_at(line, "\t"@, k) by {
        if text::occurs_at(line, "\t"@, k) {
            assert(line.subrange(k, k + 1)[0] == query[k]);
            assert(query.contains(query[k]));
        }
    }
    document::lemma_place_is(line, "\t"@, 0, n);
    assert(line.take(n) =~= query);
    assert(line.skip(n + 1) =~= target);
}

/// The line of a rule is one line.
proof fn lemma_rule_line_is_plain(query: Seq<char>, target: Seq<char>)
    requires
        fits_a_line(query),
        fits_a_line(target),
    ensures
        text::is_plain_line(query + "\t"@ + target),
{
    reveal_strlit("\t");
    let line = query + "\t"@ + target;
    assert(line.last() == target.last());
    assert(target.contains(target.last()));
    if line.contains('\n') {
        let k = choose|k: int| 0 <= k < line.len() && line[k] == '\n';
        if k < query.len() {
            assert(query.contains(query[k]));
            assert(query[k] == line[k]);
        } else if k > query.len() {
            assert(line[k] == target[k - query.len() - 1]);
            assert(target.contains(target[k - query.len() - 1]));
        } else {
            assert(line[k] == "\t"@[0]);
        }
    }
}

/// The lines of rules.
pub open spec fn lines_of_rules(rules: Seq<(Seq<char>, Seq<char>)>) -> Seq<Seq<char>> {
    Seq::new(rules.len(), |i: int| rules[i].0 + "\t"@ + rules[i].1)
}

proof fn lemma_rules_text_lines(rules: Seq<(Seq<char>, Seq<char>)>, n: int)
    requires
        0 <= n <= rules.len(),
        forall|i: int|
            0 <= i < rules.len() ==> fits_a_line((#[trigger] rules[i]).0) && fits_a_line(
                rules[i].1,
            ),
    ensures
        rules_text(rules, n) == text::terminated(lines_of_rules(rules).take(n)),
    decreases n,
{
    let all = lines_of_rules(rules);
    if n > 0 {
        lemma_rules_text_lines(rules, n - 1);
        let (query, target) = rules[n - 1];
        reveal_strlit("\n");
        assert("\n"@ =~= seq!['\n']);
        assert forall|i: int| 0 <= i < query.len() implies on_one_line(query)[i] == query[i] by {
            assert(query.contains(query[i]));
        }
        assert forall|i: int| 0 <= i < target.len() implies on_one_line(target)[i]
            == target[i] by {
            assert(target.contains(target[i]));
        }
        assert(on_one_line(query) =~= query);
        assert(on_one_line(target) =~= target);
        assert(all.take(n).drop_last() =~= all.take(n - 1));
        assert(all.take(n).last() == query + "\t"@ + target);
        let before = rules_text(rules, n - 1);
        assert(before + query + "\t"@ + target + "\n"@ =~= before + (query + "\t"@ + target)
            + seq!['\n']);
    } else {
        assert(all.take(0) =~= Seq::<Seq<char>>::empty());
    }
}

proof fn lemma_rules_in_lines(rules: Seq<(Seq<char>, Seq<char>)>, n: int)
    requires
        0 <= n <= rules.len(),
        forall|i: int|
            0 <= i < rules.len() ==> fits_a_line((#[trigger] rules[i]).0) && fits_a_line(
                rules[i].1,
            ),
    ensures
        rules_in(lines_of_rules(rules), n) == rules.take(n),
    decreases n,
{
    if n > 0 {
        lemma_rules_in_lines(rules, n - 1);
        lemma_rule_line_round_trip(rules[n - 1].0, rules[n - 1].1);
        assert(rules.take(n) =~= rules.take(n - 1).push(rules[n - 1]));
    } else {
        assert(rules.take(0) =~= Seq::<(Seq<char>, Seq<char>)>::empty());
    }
}

proof fn lemma_normalized_stays(rules: Seq<(Seq<char>, Seq<char>)>, limit: int, n: int)
    requires
        0 <= n <= rules.len(),
        rules.len() <= limit || rules.len() <= 1,
        distinct_queries(rules),
        forall|i: int|
            0 <= i < rules.len() ==> fits_a_line((#[trigger] rules[i]).0) && fits_a_line(
                rules[i].1,
            ),
    ensures
        normalized(rules, limit, n) == rules.take(n),
    decreases n,
{
    if n > 0 {
        lemma_normalized_stays(rules, limit, n - 1);
        let before = rules.take(n - 1);
        let own = rules[n - 1];
        assert(!has_query(before, text::fold(own.0))) by {
            if has_query(before, text::fold(own.0)) {
                let i = choose|i: int|
                    0 <= i < before.len() && text::fold((#[trigger] before[i]).0) == text::fold(
                        own.0,
                    );
                assert(rules[i] == before[i]);
            }
        }
        assert(rules.take(n) =~= before.push(own));
    } else {
        assert(rules.take(0) =~= Seq::<(Seq<char>, Seq<char>)>::empty());
    }
}

/// Rules for different queries that fit their lines and the limit are read back as they
/// were written.
pub proof fn lemma_rules_round_trip(rules: Seq<(Seq<char>, Seq<char>)>, limit: int)
    requires
        rules.len() <= limit || rules.len() <= 1,
        distinct_queries(rules),
        forall|i: int|
            0 <= i < rules.len() ==> fits_a_line((#[trigger] rules[i]).0) && fits_a_line(
                rules[i].1,
            ),
    ensures
        ({
            let all = text::lines(rules_text(rules, rules.len() as int));
            let found = rules_in(all, all.len() as int);
            normalized(found, limit, found.len() as int) == rules
        }),
{
    let n = rules.len() as int;
    let all = lines_of_rules(rules);
    lemma_rules_text_lines(rules, n);
    assert(all.take(n) =~= all);
    assert forall|i: int| 0 <= i < all.len() implies text::is_plain_line(#[trigger] all[i]) by {
        lemma_rule_line_is_plain(rules[i].0, rules[i].1);
    }
    text::lemma_lines_round_trip(all);
    lemma_rules_in_lines(rules, n);
    lemma_normalized_stays(rules, limit, n);
    assert(rules.take(n) =~= rules);
}


/// The rules of lines are those of the lines among them that hold one.
proof fn lemma_rules_in_picked(all: Seq<Seq<char>>, n: int)
    requires
        0 <= n <= all.len(),
    ensures
        ({
            let lines = document::picked(all, |line: Seq<char>| rule_in(line) is Some, n);
            rules_in(all, n) == rules_in(lines, lines.len() as int)
        }),
    decreases n,
{
    let test = |line: Seq<char>| rule_in(line) is Some;
    if n > 0 {
        lemma_rules_in_picked(all, n - 1);
        let before = document::picked(all, test, n - 1);
        let now = document::picked(all, test, n);
        if test(all[n - 1]) {
            lemma_rules_in_front(now, before, before.len() as int);
            assert(now.last() == all[n - 1]);
        }
    }
}

proof fn lemma_rules_in_front(a: Seq<Seq<char>>, b: Seq<Seq<char>>, n: int)
    requires
        0 <= n <= a.len(),
        n <= b.len(),
        forall|i: int| 0 <= i < n ==> #[trigger] a[i] == b[i],
    ensures
        rules_in(a, n) == rules_in(b, n),
    decreases n,
{
    if n > 0 {
        lemma_rules_in_front(a, b, n - 1);
        assert(a[n - 1] == b[n - 1]);
    }
}

/// Rules that are saved into a text are what is read from it, whatever else the text
/// holds.
pub proof fn lemma_saved_rules_are_read(
    existing: Seq<char>,
    rules: Seq<(Seq<char>, Seq<char>)>,
    limit: int,
)
    requires
        rules.len() <= limit || rules.len() <= 1,
        distinct_queries(rules),
        forall|i: int|
            0 <= i < rules.len() ==> fits_a_line((#[trigger] rules[i]).0) && fits_a_line(
                rules[i].1,
            ),
        forall|i: int|
            0 <= i < text::lines(existing).len() ==> document::is_kept_in(
                #[trigger] text::lines(existing)[i],
                existing,
            ),
    ensures
        ({
            let saved = document::merged(
                existing,
                rule_lines(text::lines(existing)),
                text::lines(rules_text(rules, rules.len() as int)),
            );
            let found = rules_in(text::lines(saved), text::lines(saved).len() as int);
            normalized(found, limit, found.len() as int) == rules
        }),
{
    let n = rules.len() as int;
    let own = lines_of_rules(rules);
    let known = rule_lines(text::lines(existing));
    let test = |line: Seq<char>| rule_in(line) is Some;
    lemma_rules_text_lines(rules, n);
    assert(own.take(n) =~= own);
    assert forall|i: int| 0 <= i < own.len() implies text::is_plain_line(#[trigger] own[i]) by {
        lemma_rule_line_is_plain(rules[i].0, rules[i].1);
    }
    text::lemma_lines_round_trip(own);
    assert forall|i: int| 0 <= i < own.len() implies test(#[trigger] own[i])
        && document::is_kept_in(own[i], existing) by {
        lemma_rule_line_round_trip(rules[i].0, rules[i].1);
        assert(text::is_plain_line(own[i]));
    }
    assert(!test(Seq::empty())) by {
        reveal_strlit("\t");
        assert(document::place_in(Seq::<char>::empty(), "\t"@, 0) == -1);
    }
    document::lemma_exchanged_lines_are_read(existing, known, own, test);
    let saved = document::merged(existing, known, own);
    let all = text::lines(saved);
    lemma_rules_in_picked(all, all.len() as int);
    lemma_rules_in_lines(rules, n);
    lemma_normalized_stays(rules, limit, n);
    assert(rules.take(n) =~= rules);
}


/// Queries that are saved into a text are what is read from it, whatever else the text
/// holds.
pub proof fn lemma_saved_history_is_read(existing: Seq<char>, items: Seq<Seq<char>>)
    requires
        forall|i: int|
            0 <= i < items.len() ==> is_history_line(#[trigger] items[i]) && text::is_plain_line(
                items[i],
            ),
        forall|i: int|
            0 <= i < text::lines(existing).len() ==> document::is_kept_in(
                #[trigger] text::lines(existing)[i],
                existing,
            ),
    ensures
        ({
            let saved = document::merged(
                existing,
                history_lines(text::lines(existing)),
                text::lines(recents::text_of(items)),
            );
            document::picked(
                text::lines(saved),
                |line: Seq<char>| is_history_line(line),
                text::lines(saved).len() as int,
            ) == items
        }),
{
    let test = |line: Seq<char>| is_history_line(line);
    assert forall|i: int| 0 <= i < items.len() implies text::is_plain_line(#[trigger] items[i])
        && items[i].len() > 0 by {
        assert(is_history_line(items[i]));
        if items[i].len() == 0 {
            text::lemma_trimmed_stays(items[i]);
        }
    }
    recents::lemma_items_round_trip(items);
    assert forall|i: int| 0 <= i < items.len() implies test(#[trigger] items[i])
        && document::is_kept_in(items[i], existing) by {
        assert(text::is_plain_line(items[i]));
    }
    text::lemma_trimmed_stays(Seq::empty());
    assert(!test(Seq::empty()));
    document::lemma_exchanged_lines_are_read(
        existing,
        history_lines(text::lines(existing)),
        items,
        test,
    );
}

// ---------------------------------------------------------------------------
// Which rules stay
// ---------------------------------------------------------------------------

/// Taking the rules for a query away leaves the others, in their order.
pub proof fn lemma_rules_for_others_stay(
    rules: Seq<(Seq<char>, Seq<char>)>,
    key: Seq<char>,
    n: int,
)
    requires
        0 <= n <= rules.len(),
    ensures
        without_query(rules, key, n) == rules.take(n).filter(
            |rule: (Seq<char>, Seq<char>)| text::fold(rule.0) != key,
        ),
    decreases n,
{
    reveal(Seq::filter);
    if n > 0 {
        lemma_rules_for_others_stay(rules, key, n - 1);
        assert(rules.take(n).drop_last() =~= rules.take(n - 1));
        assert(rules.take(n).last() == rules[n - 1]);
    }
}

/// Taking a rule away leaves those for other queries and those with other targets, in their
/// order.
pub proof fn lemma_other_rules_stay(
    rules: Seq<(Seq<char>, Seq<char>)>,
    query: Seq<char>,
    target: Seq<char>,
    n: int,
)
    requires
        0 <= n <= rules.len(),
    ensures
        without_rule(rules, query, target, n) == rules.take(n).filter(
            |rule: (Seq<char>, Seq<char>)|
                text::fold(rule.0) != query || text::fold(
                    root_ownership::backslashed(text::trimmed(rule.1)),
                ) != target,
        ),
    decreases n,
{
    reveal(Seq::filter);
    if n > 0 {
        lemma_other_rules_stay(rules, query, target, n - 1);
        assert(rules.take(n).drop_last() =~= rules.take(n - 1));
        assert(rules.take(n).last() == rules[n - 1]);
    }
}

/// What is pinned is not shown twice: of the other results those with another target, or with
/// none, stay, in their order.
pub proof fn lemma_other_targets_stay(all: Seq<SearchResult>, key: Seq<char>, n: int)
    requires
        0 <= n <= all.len(),
    ensures
        without_target(all, key, n) == all.take(n).filter(
            |r: SearchResult|
                match r.target {
                    LaunchTarget::Path(path) => text::fold(path@) != key,
                    LaunchTarget::Plugin(_) => true,
                },
        ),
    decreases n,
{
    reveal(Seq::filter);
    if n > 0 {
        lemma_other_targets_stay(all, key, n - 1);
        assert(all.take(n).drop_last() =~= all.take(n - 1));
        assert(all.take(n).last() == all[n - 1]);
    }
}

/// What a rule pins comes first, and behind it the other results without what has the same
/// target; where nothing is pinned the results stay as they are.
pub proof fn lemma_pinned_comes_first(list: Seq<SearchResult>, priority: SearchResult)
    ensures
        priority.target is Path ==> {
            let r = prioritized(list, priority);
            &&& r.len() > 0 && r[0] == priority
            &&& r.drop_first() == list.filter(
                |other: SearchResult|
                    match other.target {
                        LaunchTarget::Path(path) => text::fold(path@) != text::fold(
                            priority.target->Path_0@,
                        ),
                        LaunchTarget::Plugin(_) => true,
                    },
            )
        },
        priority.target is Plugin ==> prioritized(list, priority) == list,
{
    if priority.target is Path {
        let key = text::fold(priority.target->Path_0@);
        lemma_other_targets_stay(list, key, list.len() as int);
        assert(list.take(list.len() as int) =~= list);
        let rest = without_target(list, key, list.len() as int);
        assert((seq![priority] + rest).drop_first() =~= rest);
    }
}

/// Noting a rule puts it first, trimmed, in the place of those for the same query; the others
/// follow in their order, as many as the limit leaves room for. A rule without query or
/// target changes nothing.
pub proof fn lemma_noted_rule_comes_first(
    rules: Seq<(Seq<char>, Seq<char>)>,
    query: Seq<char>,
    target: Seq<char>,
    limit: int,
)
    requires
        limit > 0,
    ensures
        text::trimmed(query).len() == 0 || text::trimmed(target).len() == 0 ==> upserted(
            rules,
            query,
            target,
            limit,
        ) == rules,
        text::trimmed(query).len() > 0 && text::trimmed(target).len() > 0 ==> {
            let r = upserted(rules, query, target, limit);
            let others = rules.filter(
                |rule: (Seq<char>, Seq<char>)|
                    text::fold(rule.0) != text::fold(text::trimmed(query)),
            );
            &&& 0 < r.len() <= limit
            &&& r[0] == (text::trimmed(query), text::trimmed(target))
            &&& r.len() < limit ==> r.drop_first() == others
            &&& r.drop_first() == others.take(r.len() - 1)
        },
{
    if text::trimmed(query).len() > 0 && text::trimmed(target).len() > 0 {
        let key = text::fold(text::trimmed(query));
        lemma_rules_for_others_stay(rules, key, rules.len() as int);
        assert(rules.take(rules.len() as int) =~= rules);
        let rest = without_query(rules, key, rules.len() as int);
        let r = upserted(rules, query, target, limit);
        assert(r.drop_first() =~= rest.take(r.len() - 1));
        if r.len() < limit {
            assert(rest.take(r.len() - 1) =~= rest);
        }
    }
}

proof fn lemma_rule_for(rules: Seq<(Seq<char>, Seq<char>)>, key: Seq<char>, from: int)
    requires
        0 <= from <= rules.len(),
    ensures
        match rule_for(rules, key, from) {
            Some(i) => from <= i < rules.len() && text::fold(rules[i].0) == key && forall|k: int|
                from <= k < i ==> text::fold((#[trigger] rules[k]).0) != key,
            None => forall|k: int|
                from <= k < rules.len() ==> text::fold((#[trigger] rules[k]).0) != key,
        },
    decreases rules.len() - from,
{
    if from < rules.len() && text::fold(rules[from].0) != key {
        lemma_rule_for(rules, key, from + 1);
    }
}

/// A query launches the target of the first rule for it, whatever the case, the accents and
/// the white space around it; a blank query launches nothing, nor does one without a rule.
pub proof fn lemma_a_rule_is_for_its_query(rules: Seq<QueryLaunchRule>, query: Seq<char>, i: int)
    ensures
        text::fold(text::trimmed(query)).len() == 0 ==> ruled_path(rules, query) is None,
        (forall|k: int|
            0 <= k < rules.len() ==> text::fold((#[trigger] rules[k]).query@) != text::fold(
                text::trimmed(query),
            )) ==> ruled_path(rules, query) is None,
        text::fold(text::trimmed(query)).len() > 0 && 0 <= i < rules.len() && text::fold(
            rules[i].query@,
        ) == text::fold(text::trimmed(query)) && (forall|k: int|
            0 <= k < i ==> text::fold((#[trigger] rules[k]).query@) != text::fold(
                text::trimmed(query),
            )) ==> ruled_path(rules, query) == Some(text::trimmed(rules[i].target@)),
{
    let key = text::fold(text::trimmed(query));
    let models = rule_models(rules);
    lemma_rule_for(models, key, 0);
    assert(forall|k: int|
        0 <= k < rules.len() ==> (#[trigger] models[k]).0 == rules[k].query@);
    if let Some(found) = rule_for(models, key, 0) {
        assert(models[found].0 == rules[found].query@);
        if 0 <= i < rules.len() && text::fold(rules[i].query@) == key {
            assert(text::fold(models[i].0) == key);
        }
    } else if 0 <= i < rules.len() {
        assert(text::fold(models[i].0) != key);
    }
}

/// Normalizing keeps the rules with query and target, trimmed and in their order, and of those
/// for one query the first, until there are as many as the limit allows.
pub proof fn lemma_normalized_rules(rules: Seq<(Seq<char>, Seq<char>)>, limit: int, n: int)
    requires
        0 <= n <= rules.len(),
        limit > 0,
    ensures
        ({
            let r = normalized(rules, limit, n);
            &&& r.len() <= limit
            &&& exists|from: Seq<int>| #[trigger]
                places::rising(from, n) && from.len() == r.len() && forall|k: int|
                    0 <= k < r.len() ==> #[trigger] r[k] == (
                        text::trimmed(rules[from[k]].0),
                        text::trimmed(rules[from[k]].1),
                    ) && r[k].0.len() > 0 && r[k].1.len() > 0
            &&& r.len() < limit ==> forall|p: int|
                0 <= p < n && text::trimmed((#[trigger] rules[p]).0).len() > 0 && text::trimmed(
                    rules[p].1,
                ).len() > 0 ==> has_query(r, text::fold(text::trimmed(rules[p].0)))
        }),
        distinct_queries(normalized(rules, limit, n)),
    decreases n,
{
    lemma_normalized_distinct(rules, limit, n);
    let r = normalized(rules, limit, n);
    if n > 0 {
        lemma_normalized_rules(rules, limit, n - 1);
        let before = normalized(rules, limit, n - 1);
        let from = choose|from: Seq<int>| #[trigger]
            places::rising(from, n - 1) && from.len() == before.len() && forall|k: int|
                0 <= k < before.len() ==> #[trigger] before[k] == (
                    text::trimmed(rules[from[k]].0),
                    text::trimmed(rules[from[k]].1),
                ) && before[k].0.len() > 0 && before[k].1.len() > 0;
        assert forall|key: Seq<char>| has_query(before, key) implies #[trigger] has_query(r, key) by {
            let i = choose|i: int| 0 <= i < before.len() && text::fold((#[trigger] before[i]).0) == key;
            assert(r[i] == before[i]);
        }
        if r != before {
            let next = from.push(n - 1);
            assert(places::rising(next, n)) by {
                assert forall|i: int| 0 <= i < next.len() implies 0 <= #[trigger] next[i] < n by {
                    if i < from.len() {
                        assert(next[i] == from[i]);
                    }
                }
                assert forall|i: int, j: int|
                    #![trigger next[i], next[j]]
                    0 <= i < j < next.len() implies next[i] < next[j] by {
                    assert(next[i] == from[i]);
                    if j < from.len() {
                        assert(next[j] == from[j]);
                    }
                }
            }
            assert forall|k: int| 0 <= k < r.len() implies #[trigger] r[k] == (
                text::trimmed(rules[next[k]].0),
                text::trimmed(rules[next[k]].1),
            ) && r[k].0.len() > 0 && r[k].1.len() > 0 by {
                if k < before.len() {
                    assert(r[k] == before[k]);
                    assert(next[k] == from[k]);
                }
            }
            assert(text::fold(r[r.len() - 1].0) == text::fold(text::trimmed(rules[n - 1].0)));
        } else {
            assert(places::rising(from, n)) by {
                assert forall|i: int| 0 <= i < from.len() implies 0 <= #[trigger] from[i] < n by {}
            }
        }
    } else {
        assert(places::rising(Seq::<int>::empty(), n));
    }
}

/// The rules of lines are those of the lines that hold one, in their order.
pub proof fn lemma_rules_of_lines(all: Seq<Seq<char>>, n: int)
    requires
        0 <= n <= all.len(),
    ensures
        ({
            let wanted = |p: int| rule_in(all[p]) is Some;
            exists|from: Seq<int>| #[trigger]
                places::picks_all(from, n, wanted) && rules_in(all, n) == Seq::new(
                    from.len(),
                    |i: int| rule_in(all[from[i]])->0,
                )
        }),
    decreases n,
{
    let wanted = |p: int| rule_in(all[p]) is Some;
    if n > 0 {
        lemma_rules_of_lines(all, n - 1);
        let from = choose|from: Seq<int>| #[trigger]
            places::picks_all(from, n - 1, wanted) && rules_in(all, n - 1) == Seq::new(
                from.len(),
                |i: int| rule_in(all[from[i]])->0,
            );
        places::lemma_pick_one_more(from, n - 1, wanted);
        let next = if wanted(n - 1) {
            from.push(n - 1)
        } else {
            from
        };
        assert(places::picks_all(next, n, wanted));
        assert(rules_in(all, n) =~= Seq::new(next.len(), |i: int| rule_in(all[next[i]])->0));
    } else {
        let from = Seq::<int>::empty();
        assert(places::picks_all(from, n, wanted));
        assert(rules_in(all, n) =~= Seq::new(from.len(), |i: int| rule_in(all[from[i]])->0));
    }
}

/// A filter lets a rule through where each of its words stands in the rule's query or target.
pub proof fn lemma_filters_ask_for_every_word(
    rule: (Seq<char>, Seq<char>),
    words: Seq<Seq<char>>,
    word: Seq<char>,
)
    ensures
        matches_words(rule, Seq::empty()),
        matches_words(rule, words.push(word)) <==> matches_words(rule, words) && exists|i: int|
            0 <= i && i + word.len() <= text::searchable(rule.0 + seq![' '] + rule.1).len()
                && #[trigger] text::searchable(rule.0 + seq![' '] + rule.1).subrange(
                i,
                i + word.len(),
            ) == word,
{
    reveal_strlit(" ");
    assert(" "@ =~= seq![' ']);
    let searched = text::searchable(rule.0 + " "@ + rule.1);
    let more = words.push(word);
    if matches_words(rule, more) {
        assert forall|i: int| 0 <= i < words.len() implies text::has_infix(
            searched,
            #[trigger] words[i],
        ) by {
            assert(more[i] == words[i]);
        }
        assert(text::has_infix(searched, more[words.len() as int]));
        let i = choose|i: int| text::occurs_at(searched, word, i);
        assert(searched.subrange(i, i + word.len()) == word);
    }
    if matches_words(rule, words) && exists|i: int|
        0 <= i && i + word.len() <= searched.len() && #[trigger] searched.subrange(
            i,
            i + word.len(),
        ) == word {
        let i = choose|i: int|
            0 <= i && i + word.len() <= searched.len() && #[trigger] searched.subrange(
                i,
                i + word.len(),
            ) == word;
        assert(text::occurs_at(searched, word, i));
        assert forall|k: int| 0 <= k < more.len() implies text::has_infix(
            searched,
            #[trigger] more[k],
        ) by {
            if k < words.len() {
                assert(more[k] == words[k]);
            }
        }
    }
}

/// What is deleted is the rules at the chosen places, and no others.
pub proof fn lemma_rules_at_other_places_stay(
    rules: Seq<QueryLaunchRule>,
    chosen: Seq<usize>,
    n: int,
)
    requires
        0 <= n <= rules.len() <= usize::MAX,
    ensures
        ({
            let wanted = |p: int| !chosen.contains(p as usize);
            exists|from: Seq<int>| #[trigger]
                places::picks_all(from, n, wanted) && without_places(rules, chosen, n)
                    == places::picked(rules, from)
        }),
    decreases n,
{
    let wanted = |p: int| !chosen.contains(p as usize);
    if n > 0 {
        lemma_rules_at_other_places_stay(rules, chosen, n - 1);
        let from = choose|from: Seq<int>| #[trigger]
            places::picks_all(from, n - 1, wanted) && without_places(rules, chosen, n - 1)
                == places::picked(rules, from);
        places::lemma_pick_one_more(from, n - 1, wanted);
        let next = if wanted(n - 1) {
            from.push(n - 1)
        } else {
            from
        };
        assert(places::picks_all(next, n, wanted));
        assert(without_places(rules, chosen, n) =~= places::picked(rules, next));
    } else {
        let from = Seq::<int>::empty();
        assert(places::picks_all(from, n, wanted));
        assert(without_places(rules, chosen, n) =~= places::picked(rules, from));
    }
}

/// The history of queries keeps the lines that are neither blank nor for a plugin, trimmed and
/// in their order, and of those that are one but for case and accents the first, until there
/// are as many as the limit allows.
pub proof fn lemma_normalized_history_keeps(
    items: Seq<Seq<char>>,
    for_plugin: Seq<bool>,
    limit: int,
    n: int,
)
    requires
        0 <= n <= items.len(),
        for_plugin.len() == items.len(),
        limit > 0,
    ensures
        ({
            let r = normalized_history(items, for_plugin, limit, n);
            &&& r.len() <= limit
            &&& exists|from: Seq<int>| #[trigger]
                places::rising(from, n) && from.len() == r.len() && forall|k: int|
                    0 <= k < r.len() ==> #[trigger] r[k] == text::trimmed(items[from[k]])
                        && r[k].len() > 0 && !for_plugin[from[k]]
            &&& forall|i: int, j: int|
                #![trigger r[i], r[j]]
                0 <= i < j < r.len() ==> text::fold(r[i]) != text::fold(r[j])
            &&& r.len() < limit ==> forall|p: int|
                0 <= p < n && text::trimmed(#[trigger] items[p]).len() > 0 && !for_plugin[p]
                    ==> has_folded(r, text::fold(text::trimmed(items[p])))
        }),
    decreases n,
{
    let r = normalized_history(items, for_plugin, limit, n);
    if n > 0 {
        lemma_normalized_history_keeps(items, for_plugin, limit, n - 1);
        let before = normalized_history(items, for_plugin, limit, n - 1);
        let from = choose|from: Seq<int>| #[trigger]
            places::rising(from, n - 1) && from.len() == before.len() && forall|k: int|
                0 <= k < before.len() ==> #[trigger] before[k] == text::trimmed(items[from[k]])
                    && before[k].len() > 0 && !for_plugin[from[k]];
        assert forall|key: Seq<char>| has_folded(before, key) implies #[trigger] has_folded(r, key) by {
            let i = choose|i: int| 0 <= i < before.len() && text::fold(#[trigger] before[i]) == key;
            assert(r[i] == before[i]);
        }
        if r != before {
            let next = from.push(n - 1);
            assert(places::rising(next, n)) by {
                assert forall|i: int| 0 <= i < next.len() implies 0 <= #[trigger] next[i] < n by {
                    if i < from.len() {
                        assert(next[i] == from[i]);
                    }
                }
                assert forall|i: int, j: int|
                    #![trigger next[i], next[j]]
                    0 <= i < j < next.len() implies next[i] < next[j] by {
                    assert(next[i] == from[i]);
                    if j < from.len() {
                        assert(next[j] == from[j]);
                    }
                }
            }
            assert forall|k: int| 0 <= k < r.len() implies #[trigger] r[k] == text::trimmed(
                items[next[k]],
            ) && r[k].len() > 0 && !for_plugin[next[k]] by {
                if k < before.len() {
                    assert(r[k] == before[k]);
                    assert(next[k] == from[k]);
                }
            }
            assert forall|i: int, j: int|
                #![trigger r[i], r[j]]
                0 <= i < j < r.len() implies text::fold(r[i]) != text::fold(r[j]) by {
                assert(r[i] == before[i]);
                if j < before.len() {
                    assert(r[j] == before[j]);
                }
            }
            assert(text::fold(r[r.len() - 1]) == text::fold(text::trimmed(items[n - 1])));
        } else {
            assert(places::rising(from, n)) by {
                assert forall|i: int| 0 <= i < from.len() implies 0 <= #[trigger] from[i] < n by {}
            }
        }
    } else {
        assert(places::rising(Seq::<int>::empty(), n));
    }
}

/// A text is put on one line with blanks for tabs and line ends; all else stays in its place.
pub proof fn lemma_put_on_one_line(s: Seq<char>, i: int)
    requires
        0 <= i < s.len(),
    ensures
        on_one_line(s).len() == s.len(),
        s[i] != '\t' && s[i] != '\r' && s[i] != '\n' ==> on_one_line(s)[i] == s[i],
        s[i] == '\t' || s[i] == '\r' || s[i] == '\n' ==> on_one_line(s)[i] == ' ',
        !on_one_line(s).contains('\n') && !on_one_line(s).contains('\r') && !on_one_line(
            s,
        ).contains('\t'),
{
}

/// Targets are the same whatever their case, their slashes and the white space around them.
pub proof fn lemma_same_targets(a: Seq<char>, b: Seq<char>)
    requires
        text::trimmed(a).len() == text::trimmed(b).len(),
        forall|i: int|
            0 <= i < text::trimmed(a).len() ==> #[trigger] text::trimmed(a)[i] == text::trimmed(b)[i]
                || (text::trimmed(a)[i] == '/' && text::trimmed(b)[i] == '\\'),
    ensures
        target_key(a) == target_key(b),
        target_key(text::trimmed(a)) == target_key(a),
{
    text::lemma_trimmed_idempotent(a);
    assert(root_ownership::backslashed(text::trimmed(a)) =~= root_ownership::backslashed(
        text::trimmed(b),
    ));
}

/// The rows that are chosen are those at the chosen places, in the order of the choice; places
/// that are not there choose nothing.
pub proof fn lemma_chosen_rows(visible: Seq<usize>, chosen: Seq<usize>, n: int)
    requires
        0 <= n <= chosen.len(),
    ensures
        ({
            let wanted = |p: int| chosen[p] < visible.len();
            exists|from: Seq<int>| #[trigger]
                places::picks_all(from, n, wanted) && chosen_places(visible, chosen, n) == Seq::new(
                    from.len(),
                    |i: int| visible[chosen[from[i]] as int],
                )
        }),
    decreases n,
{
    let wanted = |p: int| chosen[p] < visible.len();
    if n > 0 {
        lemma_chosen_rows(visible, chosen, n - 1);
        let from = choose|from: Seq<int>| #[trigger]
            places::picks_all(from, n - 1, wanted) && chosen_places(visible, chosen, n - 1)
                == Seq::new(from.len(), |i: int| visible[chosen[from[i]] as int]);
        places::lemma_pick_one_more(from, n - 1, wanted);
        let next = if wanted(n - 1) {
            from.push(n - 1)
        } else {
            from
        };
        assert(places::picks_all(next, n, wanted));
        assert(chosen_places(visible, chosen, n) =~= Seq::new(
            next.len(),
            |i: int| visible[chosen[next[i]] as int],
        ));
    } else {
        let from = Seq::<int>::empty();
        assert(places::picks_all(from, n, wanted));
        assert(chosen_places(visible, chosen, n) =~= Seq::new(
            from.len(),
            |i: int| visible[chosen[from[i]] as int],
        ));
    }
}

/// A path outside all search folders counts as one in a folder of its own: the one that it lies
/// in, without a score or keywords.
pub proof fn lemma_folders_of_their_own(
    root: IndexRoot,
    path: Seq<char>,
    default_depth: usize,
    label: Seq<char>,
)
    requires
        own_folder(root, path, default_depth, label),
    ensures
        root.score == 0 && root.enabled && root.keywords@.len() == 0 && root.max_depth
            == default_depth && root.label@ == label,
        winpath::parent(path) matches Some(folder) ==> root.path is Some && root.path->0@ == folder
            && root.raw@ == folder,
        winpath::parent(path) is None ==> root.path is None && root.raw@.len() == 0,
{
}

/// Comments and blank lines are no entries of a history; all other lines are.
pub proof fn lemma_which_lines_are_entries(line: Seq<char>, rest: Seq<char>)
    ensures
        !is_history_line(seq!['#'] + rest),
        !is_history_line(seq![';'] + rest),
        text::trimmed(line).len() == 0 ==> !is_history_line(line),
        line.len() > 0 && !text::white_space(line[0]) && line[0] != '#' && line[0] != ';'
            ==> is_history_line(line),
        is_history_line(line) == is_history_line(text::trimmed(line)),
{
    text::lemma_trimmed_idempotent(line);
    text::lemma_white_space('#');
    text::lemma_white_space(';');
    lemma_first_stays(seq!['#'] + rest);
    lemma_first_stays(seq![';'] + rest);
    if line.len() > 0 && !text::white_space(line[0]) {
        lemma_first_stays(line);
    }
}

proof fn lemma_first_stays(s: Seq<char>)
    requires
        s.len() > 0,
        !text::white_space(s[0]),
    ensures
        text::trimmed(s).len() > 0,
        text::trimmed(s)[0] == s[0],
{
    text::lemma_trimming_takes_white_space(s);
    let (i, j) = choose|i: int, j: int|
        0 <= i <= j <= s.len() && #[trigger] s.subrange(i, j) == text::trimmed(s) && (forall|k: int|
            0 <= k < i || j <= k < s.len() ==> text::white_space(#[trigger] s[k]));
    assert(i == 0 && j > 0);
}

/// The row that a rule puts first leads to what the rule launches, as a row of a rule; there is
/// none where the query has no rule or its path is gone.
pub proof fn lemma_rows_of_rules(
    row: Option<SearchResult>,
    query: Seq<char>,
    rules: Seq<QueryLaunchRule>,
    state: Option<PathState>,
    default_depth: usize,
    working_directory: Seq<char>,
    include_explanation: bool,
    wording: Wording,
)
    requires
        is_ruled_row(
            row,
            query,
            rules,
            state,
            default_depth,
            working_directory,
            include_explanation,
            wording,
        ),
    ensures
        state is None || ruled_path(rules, query) is None ==> row is None,
        row matches Some(result) ==> results::target_path(result) == ruled_path(rules, query)
            && result.from_query_launch_rule && result.ranking_kind
            == ResultRankingKind::QueryLaunchRule && result.is_dir == state->0.is_dir && result.score
            == 0 && (result.explanation is Some <==> include_explanation),
        state is Some && (ruled_path(rules, query) matches Some(path) && path.len() > 0) ==> row
            is Some,
{
    if let Some(path) = ruled_path(rules, query) {
        items::lemma_names_of_items(path, winpath::file_name(path));
    }
}

} // verus!
