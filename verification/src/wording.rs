//! How things are said in a language: phrases, and templates with places to fill in.

use crate::text;
use vstd::prelude::*;

verus! {

/// A phrase, and how it is said in a language.
#[derive(Debug, PartialEq, Eq)]
pub struct Phrase {
    pub source: String,
    pub said: String,
}

/// The phrases of a language. Without any, everything is said as it is written in the
/// program.
#[derive(Debug, PartialEq, Eq)]
pub struct Wording {
    pub phrases: Vec<Phrase>,
}

/// How something is said, by the phrases from a place on: as the first of them says it, or
/// as it is.
pub open spec fn said_from(phrases: Seq<Phrase>, source: Seq<char>, i: int) -> Seq<char>
    decreases phrases.len() - i,
{
    if i < 0 || i >= phrases.len() {
        source
    } else if phrases[i].source@ == source {
        phrases[i].said@
    } else {
        said_from(phrases, source, i + 1)
    }
}

impl Wording {
    /// How something is said.
    pub open spec fn said(&self, source: Seq<char>) -> Seq<char> {
        said_from(self.phrases@, source, 0)
    }

    /// Everything is said as it is written in the program.
    pub open spec fn is_source(&self) -> bool {
        self.phrases@.len() == 0
    }

    /// The language that the program is written in.
    pub fn source() -> (r: Wording)
        ensures
            r.is_source(),
    {
        Wording { phrases: Vec::new() }
    }

    /// Says something.
    pub fn say(&self, source: &str) -> (r: String)
        ensures
            r@ == self.said(source@),
            self.is_source() ==> r@ == source@,
    {
        let mut i: usize = 0;
        while i < self.phrases.len()
            invariant
                i <= self.phrases.len(),
                self.said(source@) == said_from(self.phrases@, source@, i as int),
            decreases self.phrases.len() - i,
        {
            if text::same_text(self.phrases[i].source.as_str(), source) {
                return self.phrases[i].said.clone();
            }
            i += 1;
        }
        source.to_owned()
    }
}

// ---------------------------------------------------------------------------
// Templates
// ---------------------------------------------------------------------------

/// The length of the place that a template begins with: two for `{}`, four for `{:?}`, and
/// nothing where it begins with none.
pub open spec fn place_len(template: Seq<char>) -> int {
    if template.len() >= 2 && template[0] == '{' && template[1] == '}' {
        2
    } else if template.len() >= 4 && template[0] == '{' && template[1] == ':' && template[2] == '?'
        && template[3] == '}' {
        4
    } else {
        0
    }
}

/// A template with its places filled in, from the left; places without a value stay.
#[verifier::opaque]
pub open spec fn filled(template: Seq<char>, values: Seq<Seq<char>>) -> Seq<char>
    decreases template.len(),
{
    if template.len() == 0 || values.len() == 0 {
        template
    } else if place_len(template) > 0 {
        values[0] + filled(template.skip(place_len(template)), values.skip(1))
    } else {
        seq![template[0]] + filled(template.skip(1), values)
    }
}

/// Fills in a template.
pub fn fill(template: &str, values: &[String]) -> (r: String)
    ensures
        r@ == filled(template@, text::texts(values@)),
{
    let chars = text::chars_of(template);
    let ghost all = text::texts(values@);
    let mut out = String::new();
    let mut i: usize = 0;
    let mut used: usize = 0;
    proof {
        reveal(filled);
        assert(chars@.skip(0) =~= chars@);
        assert(all.skip(0) =~= all);
        assert(out@ + filled(chars@.skip(0), all.skip(0)) =~= filled(template@, all));
    }
    while i < chars.len()
        invariant
            i <= chars.len(),
            used <= values.len(),
            all == text::texts(values@),
            chars@ == template@,
            out@ + filled(chars@.skip(i as int), all.skip(used as int)) == filled(template@, all),
        decreases chars.len() - i,
    {
        let ghost before = out@;
        let ghost rest = chars@.skip(i as int);
        let ghost left = all.skip(used as int);
        let place: usize = if chars.len() - i >= 2 && chars[i] == '{' && chars[i + 1] == '}' {
            2
        } else if chars.len() - i >= 4 && chars[i] == '{' && chars[i + 1] == ':' && chars[i + 2]
            == '?' && chars[i + 3] == '}' {
            4
        } else {
            0
        };
        proof {
            reveal(filled);
            assert(place == place_len(rest));
        }
        if used < values.len() && place > 0 {
            out.append(values[used].as_str());
            proof {
                assert(rest.skip(place as int) =~= chars@.skip(i + place));
                assert(left.skip(1) =~= all.skip(used + 1));
                assert(left[0] == values@[used as int]@);
                assert(out@ + filled(chars@.skip(i + place), all.skip(used + 1)) =~= before + (
                left[0] + filled(rest.skip(place as int), left.skip(1))));
            }
            i += place;
            used += 1;
        } else {
            out.push(chars[i]);
            proof {
                assert(rest.skip(1) =~= chars@.skip(i + 1));
                if left.len() == 0 {
                    assert(filled(rest, left) == rest);
                    assert(filled(rest.skip(1), left) == rest.skip(1));
                    assert(rest =~= seq![rest[0]] + rest.skip(1));
                }
                assert(out@ + filled(chars@.skip(i + 1), left) =~= before + (seq![rest[0]]
                    + filled(rest.skip(1), left)));
            }
            i += 1;
        }
    }
    proof {
        assert(chars@.skip(i as int) =~= Seq::<char>::empty());
        assert(out@ =~= out@ + filled(chars@.skip(i as int), all.skip(used as int)));
    }
    out
}

/// What stands in front of the first place stays in front.
pub proof fn lemma_filled_behind(front: Seq<char>, rest: Seq<char>, values: Seq<Seq<char>>)
    requires
        forall|i: int| 0 <= i < front.len() ==> #[trigger] front[i] != '{',
    ensures
        filled(front + rest, values) == front + filled(rest, values),
    decreases front.len(),
{
    reveal(filled);
    if front.len() == 0 {
        assert(front + rest =~= rest);
        assert(front + filled(rest, values) =~= filled(rest, values));
    } else {
        let whole = front + rest;
        let back = front.skip(1);
        assert forall|i: int| 0 <= i < back.len() implies #[trigger] back[i] != '{' by {
            assert(back[i] == front[i + 1]);
        }
        lemma_filled_behind(back, rest, values);
        assert(whole.skip(1) =~= back + rest);
        assert(whole[0] == front[0]);
        if values.len() == 0 {
            assert(filled(rest, values) == rest);
        } else {
            assert(filled(whole, values) =~= seq![front[0]] + filled(back + rest, values));
            assert(front =~= seq![front[0]] + back);
            assert(front + filled(rest, values) =~= seq![front[0]] + (back + filled(rest, values)));
        }
    }
}

/// A template with one place is what stands in front of it, the value, and what is left
/// with the other values.
pub proof fn lemma_filled_at(
    template: Seq<char>,
    front: Seq<char>,
    rest: Seq<char>,
    values: Seq<Seq<char>>,
)
    requires
        template == front + "{}"@ + rest,
        forall|i: int| 0 <= i < front.len() ==> #[trigger] front[i] != '{',
        values.len() > 0,
    ensures
        filled(template, values) == front + values[0] + filled(rest, values.skip(1)),
{
    reveal_strlit("{}");
    reveal(filled);
    let tail = "{}"@ + rest;
    assert(template =~= front + tail);
    lemma_filled_behind(front, tail, values);
    assert(tail.skip(2) =~= rest);
    assert(front + (values[0] + filled(rest, values.skip(1))) =~= front + values[0] + filled(
        rest,
        values.skip(1),
    ));
}

impl Wording {
    /// A template as it is said, with its places filled in.
    pub open spec fn said_with(&self, template: Seq<char>, values: Seq<Seq<char>>) -> Seq<char> {
        filled(self.said(template), values)
    }

    /// Says a template with its places filled in.
    pub fn say_with(&self, template: &str, values: &[String]) -> (r: String)
        ensures
            r@ == self.said_with(template@, text::texts(values@)),
    {
        let said = self.say(template);
        fill(said.as_str(), values)
    }

    /// Says a template with one place.
    pub fn say_with_one(&self, template: &str, value: &str) -> (r: String)
        ensures
            r@ == self.said_with(template@, seq![value@]),
    {
        let values: Vec<String> = vec![value.to_owned()];
        proof {
            assert(text::texts(values@) =~= seq![value@]);
        }
        self.say_with(template, values.as_slice())
    }

    /// Says a template with two places.
    pub fn say_with_two(&self, template: &str, a: &str, b: &str) -> (r: String)
        ensures
            r@ == self.said_with(template@, seq![a@, b@]),
    {
        let values: Vec<String> = vec![a.to_owned(), b.to_owned()];
        proof {
            assert(text::texts(values@) =~= seq![a@, b@]);
        }
        self.say_with(template, values.as_slice())
    }

    /// Says a template with three places.
    pub fn say_with_three(&self, template: &str, a: &str, b: &str, c: &str) -> (r: String)
        ensures
            r@ == self.said_with(template@, seq![a@, b@, c@]),
    {
        let values: Vec<String> = vec![a.to_owned(), b.to_owned(), c.to_owned()];
        proof {
            assert(text::texts(values@) =~= seq![a@, b@, c@]);
        }
        self.say_with(template, values.as_slice())
    }
}

/// A template that ends with its only place, as the program has it.
pub proof fn lemma_source_one(wording: Wording, template: Seq<char>, front: Seq<char>, value: Seq<char>)
    requires
        wording.is_source(),
        template == front + "{}"@,
        forall|i: int| 0 <= i < front.len() ==> #[trigger] front[i] != '{',
    ensures
        wording.said_with(template, seq![value]) == front + value,
{
    reveal(filled);
    let none = Seq::<char>::empty();
    let values = seq![value];
    assert(front + "{}"@ + none =~= template);
    lemma_filled_at(template, front, none, values);
    assert(front + value + none =~= front + value);
}

/// A template that ends with the third of its three places, as the program has it.
pub proof fn lemma_source_three(
    wording: Wording,
    template: Seq<char>,
    fronts: Seq<Seq<char>>,
    values: Seq<Seq<char>>,
)
    requires
        wording.is_source(),
        fronts.len() == 3,
        values.len() == 3,
        template == fronts[0] + "{}"@ + fronts[1] + "{}"@ + fronts[2] + "{}"@,
        forall|k: int, i: int|
            0 <= k < 3 && 0 <= i < fronts[k].len() ==> #[trigger] fronts[k][i] != '{',
    ensures
        wording.said_with(template, values) == fronts[0] + values[0] + fronts[1] + values[1]
            + fronts[2] + values[2],
{
    reveal(filled);
    let none = Seq::<char>::empty();
    let third = fronts[2] + "{}"@;
    let second = fronts[1] + "{}"@ + third;
    assert(template =~= fronts[0] + "{}"@ + second);
    lemma_filled_at(template, fronts[0], second, values);
    let two = values.skip(1);
    lemma_filled_at(second, fronts[1], third, two);
    let one = two.skip(1);
    assert(third =~= fronts[2] + "{}"@ + none);
    lemma_filled_at(third, fronts[2], none, one);
    assert(two[0] == values[1] && one[0] == values[2]);
    assert(fronts[0] + values[0] + (fronts[1] + values[1] + (fronts[2] + values[2] + none))
        =~= fronts[0] + values[0] + fronts[1] + values[1] + fronts[2] + values[2]);
}

// ---------------------------------------------------------------------------
// Replacing
// ---------------------------------------------------------------------------

/// A text with every occurrence of a part replaced, from the left.
pub open spec fn replaced(s: Seq<char>, from: Seq<char>, to: Seq<char>) -> Seq<char>
    decreases s.len(),
{
    if from.len() == 0 || s.len() < from.len() {
        s
    } else if text::has_prefix(s, from) {
        to + replaced(s.skip(from.len() as int), from, to)
    } else {
        seq![s[0]] + replaced(s.skip(1), from, to)
    }
}

/// Replaces every occurrence of a part.
pub fn replace_all(s: &str, from: &str, to: &str) -> (r: String)
    ensures
        r@ == replaced(s@, from@, to@),
{
    let chars = text::chars_of(s);
    let part = text::chars_of(from);
    if part.len() == 0 {
        return s.to_owned();
    }
    let mut out = String::new();
    let mut i: usize = 0;
    proof {
        assert(chars@.skip(0) =~= chars@);
        assert(out@ + replaced(chars@.skip(0), from@, to@) =~= replaced(s@, from@, to@));
    }
    while i < chars.len()
        invariant
            i <= chars.len(),
            chars@ == s@,
            part@ == from@,
            part@.len() > 0,
            out@ + replaced(chars@.skip(i as int), from@, to@) == replaced(s@, from@, to@),
        decreases chars.len() - i,
    {
        let ghost before = out@;
        let ghost rest = chars@.skip(i as int);
        if text::stands_at(chars.as_slice(), part.as_slice(), i) {
            out.append(to);
            proof {
                let n = part@.len() as int;
                assert(rest.subrange(0, n) =~= chars@.subrange(i as int, i + n));
                assert(rest.skip(n) =~= chars@.skip(i + n));
                assert(out@ + replaced(chars@.skip(i + n), from@, to@) =~= before + (to@ + replaced(
                    rest.skip(n),
                    from@,
                    to@,
                )));
            }
            i += part.len();
        } else {
            out.push(chars[i]);
            proof {
                let n = part@.len() as int;
                assert(rest.skip(1) =~= chars@.skip(i + 1));
                if rest.len() < n {
                    assert(rest =~= seq![rest[0]] + rest.skip(1));
                    assert(replaced(rest.skip(1), from@, to@) == rest.skip(1));
                } else {
                    assert(rest.subrange(0, n) =~= chars@.subrange(i as int, i + n));
                }
                assert(out@ + replaced(chars@.skip(i + 1), from@, to@) =~= before + (seq![rest[0]]
                    + replaced(rest.skip(1), from@, to@)));
            }
            i += 1;
        }
    }
    proof {
        assert(chars@.skip(i as int) =~= Seq::<char>::empty());
        assert(out@ =~= out@ + replaced(chars@.skip(i as int), from@, to@));
    }
    out
}

/// A phrase is said as its first entry has it, and in its own words where there is none.
pub proof fn lemma_first_entry_is_said(phrases: Seq<Phrase>, source: Seq<char>, from: int)
    requires
        0 <= from <= phrases.len(),
    ensures
        (forall|i: int| from <= i < phrases.len() ==> (#[trigger] phrases[i]).source@ != source)
            ==> said_from(phrases, source, from) == source,
        forall|i: int|
            from <= i < phrases.len() && (#[trigger] phrases[i]).source@ == source && (forall|
                k: int,
            |
                from <= k < i ==> (#[trigger] phrases[k]).source@ != source) ==> said_from(
                phrases,
                source,
                from,
            ) == phrases[i].said@,
    decreases phrases.len() - from,
{
    if from < phrases.len() && phrases[from].source@ != source {
        lemma_first_entry_is_said(phrases, source, from + 1);
    }
}

/// Every occurrence is replaced, from the left; a text that does not hold what is replaced stays
/// as it is.
pub proof fn lemma_occurrences_are_replaced(s: Seq<char>, from: Seq<char>, to: Seq<char>)
    requires
        from.len() > 0,
    ensures
        replaced(from + s, from, to) == to + replaced(s, from, to),
        !text::has_infix(s, from) ==> replaced(s, from, to) == s,
        s.len() > 0 && !text::has_prefix(s, from) ==> replaced(s, from, to) == seq![s[0]] + replaced(
            s.skip(1),
            from,
            to,
        ),
    decreases s.len(),
{
    text::lemma_stands_in(Seq::empty(), from, s);
    assert((from + s).skip(from.len() as int) =~= s);
    if !text::has_infix(s, from) && s.len() >= from.len() {
        assert(!text::occurs_at(s, from, 0));
        let rest = s.skip(1);
        if text::has_infix(rest, from) {
            let i = choose|i: int| text::occurs_at(rest, from, i);
            assert(s.subrange(i + 1, i + 1 + from.len()) =~= rest.subrange(i, i + from.len()));
            assert(text::occurs_at(s, from, i + 1));
        }
        lemma_occurrences_are_replaced(rest, from, to);
        assert(seq![s[0]] + rest =~= s);
    } else if s.len() > 0 && s.len() < from.len() {
        assert(seq![s[0]] + s.skip(1) =~= s);
    }
}

/// The places of a text are filled in their order, each with the next of the values; where the
/// values end, the rest stays.
pub proof fn lemma_places_in_order(rest: Seq<char>, first: Seq<char>, values: Seq<Seq<char>>)
    ensures
        filled(seq!['{', '}'] + rest, seq![first] + values) == first + filled(rest, values),
        filled(rest, Seq::empty()) == rest,
        forall|c: char|
            c != '{' ==> #[trigger] filled(seq![c] + rest, values) == seq![c] + filled(rest, values),
{
    reveal(filled);
    let all = seq!['{', '}'] + rest;
    assert(all.skip(2) =~= rest);
    assert((seq![first] + values).skip(1) =~= values);
    assert forall|c: char| c != '{' implies #[trigger] filled(seq![c] + rest, values) == seq![c]
        + filled(rest, values) by {
        assert((seq![c] + rest).skip(1) =~= rest);
        if values.len() == 0 {
            assert(filled(seq![c] + rest, values) == seq![c] + rest);
        }
    }
}

} // verus!
