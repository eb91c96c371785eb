//! A set of texts.

use crate::text;
use vstd::prelude::*;
use vstd::utf8::*;

verus! {

/// The number of drawers.
pub const DRAWERS: usize = 4096;

/// The drawer that a text belongs to.
pub open spec fn drawer_of(s: Seq<char>) -> int
    decreases s.len(),
{
    if s.len() == 0 {
        0
    } else {
        (drawer_of(s.drop_last()) * 31 + s.last() as u32) % 4096
    }
}

/// A set of texts, kept in drawers.
#[derive(Debug, PartialEq, Eq)]
pub struct KeySet {
    pub drawers: Vec<Vec<String>>,
}

/// The texts in drawers.
pub open spec fn texts_in(drawers: Seq<Vec<String>>) -> Set<Seq<char>> {
    Set::new(
        |s: Seq<char>|
            0 <= drawer_of(s) < drawers.len() && text::texts(drawers[drawer_of(s)]@).contains(s),
    )
}

impl View for KeySet {
    type V = Set<Seq<char>>;

    open spec fn view(&self) -> Set<Seq<char>> {
        texts_in(self.drawers@)
    }
}

proof fn lemma_drawer_of(s: Seq<char>)
    ensures
        0 <= drawer_of(s) < 4096,
    decreases s.len(),
{
    if s.len() > 0 {
        lemma_drawer_of(s.drop_last());
    }
}

fn find_drawer(chars: &[char]) -> (r: usize)
    ensures
        r == drawer_of(chars@),
        r < DRAWERS,
{
    let mut at: usize = 0;
    let mut i: usize = 0;
    proof {
        assert(chars@.take(0) =~= Seq::<char>::empty());
    }
    while i < chars.len()
        invariant
            i <= chars.len(),
            at < 4096,
            at == drawer_of(chars@.take(i as int)),
        decreases chars.len() - i,
    {
        let c = chars[i];
        proof {
            assert(chars@.take(i + 1).drop_last() =~= chars@.take(i as int));
            assert(chars@.take(i + 1).last() == c);
        }
        let code: u32 = c as u32;
        proof {
            char_is_scalar(c);
        }
        at = (at * 31 + code as usize) % 4096;
        i += 1;
    }
    proof {
        assert(chars@.take(i as int) =~= chars@);
    }
    at
}

impl KeySet {
    /// There is a drawer for every text.
    pub open spec fn well_formed(&self) -> bool {
        self.drawers@.len() == DRAWERS
    }

    /// The empty set.
    pub fn new() -> (r: KeySet)
        ensures
            r.well_formed(),
            r@ == Set::<Seq<char>>::empty(),
    {
        let mut drawers: Vec<Vec<String>> = Vec::new();
        let mut i: usize = 0;
        while i < DRAWERS
            invariant
                i <= DRAWERS,
                drawers@.len() == i,
                forall|k: int| 0 <= k < i ==> (#[trigger] drawers@[k])@.len() == 0,
            decreases DRAWERS - i,
        {
            drawers.push(Vec::new());
            i += 1;
        }
        proof {
            assert forall|s: Seq<char>| !texts_in(drawers@).contains(s) by {
                lemma_drawer_of(s);
                assert(drawers@[drawer_of(s)]@.len() == 0);
            }
            assert(texts_in(drawers@) =~= Set::<Seq<char>>::empty());
        }
        KeySet { drawers }
    }

    /// Whether the set holds a text.
    pub fn contains(&self, key: &str) -> (r: bool)
        requires
            self.well_formed(),
        ensures
            r == self@.contains(key@),
    {
        let chars = text::chars_of(key);
        let at: usize = find_drawer(chars.as_slice());
        text::contains_text(self.drawers[at].as_slice(), key)
    }

    /// Puts a text into the set, and says whether it is new.
    pub fn insert(&mut self, key: &str) -> (r: bool)
        requires
            old(self).well_formed(),
        ensures
            final(self).well_formed(),
            r == !old(self)@.contains(key@),
            final(self)@ == old(self)@.insert(key@),
    {
        let chars = text::chars_of(key);
        let at: usize = find_drawer(chars.as_slice());
        if text::contains_text(self.drawers[at].as_slice(), key) {
            proof {
                assert(self@ =~= self@.insert(key@));
            }
            return false;
        }
        let ghost before = self.drawers@;
        let drawer = &mut self.drawers[at];
        drawer.push(key.to_owned());
        proof {
            let after = self.drawers@;
            assert(text::texts(after[at as int]@) =~= text::texts(before[at as int]@).push(key@));
            assert forall|s: Seq<char>|
                texts_in(after).contains(s) == texts_in(before).insert(key@).contains(s) by {
                lemma_drawer_of(s);
                if drawer_of(s) == at {
                    let old_texts = text::texts(before[at as int]@);
                    let new_texts = text::texts(after[at as int]@);
                    if old_texts.contains(s) {
                        let k = choose|k: int| 0 <= k < old_texts.len() && old_texts[k] == s;
                        assert(new_texts[k] == s);
                    }
                    if s == key@ {
                        assert(new_texts[old_texts.len() as int] == s);
                    }
                    if new_texts.contains(s) && s != key@ {
                        let k = choose|k: int| 0 <= k < new_texts.len() && new_texts[k] == s;
                        assert(old_texts[k] == s);
                    }
                } else {
                    assert(after[drawer_of(s)] == before[drawer_of(s)]);
                }
            }
            assert(texts_in(after) =~= texts_in(before).insert(key@));
        }
        true
    }
}

} // verus!
