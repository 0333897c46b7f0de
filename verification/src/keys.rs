//! The access keys of the feed, used in turn.

use crate::text::{self, text_trim};
use vstd::prelude::*;

verus! {

/// Why there are no keys.
#[derive(Debug, Clone, Copy, PartialEq, Eq, Structural)]
pub enum KeyError {
    /// Every line is blank.
    NoKeys,
}

impl KeyError {
    /// What went wrong.
    pub fn message(self) -> (r: &'static str)
        ensures
            r@ == "No keys found in file"@,
    {
        match self {
            KeyError::NoKeys => "No keys found in file",
        }
    }
}

/// The keys of a file: its lines without the white space around them, but for blank lines.
pub open spec fn keys_of(lines: Seq<Seq<char>>) -> Seq<Seq<char>>
    decreases lines.len(),
{
    if lines.len() == 0 {
        seq![]
    } else {
        let front = keys_of(lines.drop_last());
        let key = text::trimmed(lines.last());
        if key.len() == 0 {
            front
        } else {
            front.push(key)
        }
    }
}

/// Keys that are handed out in turn.
pub struct KeyManager {
    keys: Vec<String>,
    current_index: usize,
}

impl KeyManager {
    /// There is a key to hand out.
    #[verifier::type_invariant]
    pub closed spec fn valid(self) -> bool {
        self.keys@.len() > 0
    }

    /// The keys in turn.
    pub closed spec fn keys(self) -> Seq<Seq<char>> {
        text::texts(self.keys@)
    }

    /// How many keys were handed out, up to the largest machine integer and then from none again.
    pub closed spec fn handed_out(self) -> usize {
        self.current_index
    }

    /// The keys of the lines of a file.
    pub fn new(lines: &Vec<String>) -> (r: Result<Self, KeyError>)
        ensures
            match r {
                Ok(manager) => manager.keys() == keys_of(text::texts(lines@))
                    && manager.handed_out() == 0 && manager.keys().len() > 0,
                Err(KeyError::NoKeys) => keys_of(text::texts(lines@)).len() == 0,
            },
    {
        let ghost all = text::texts(lines@);
        let mut keys: Vec<String> = Vec::new();
        let mut i: usize = 0;
        assert(text::texts(keys@) =~= keys_of(all.take(0)));
        while i < lines.len()
            invariant
                i <= lines@.len(),
                all == text::texts(lines@),
                text::texts(keys@) == keys_of(all.take(i as int)),
            decreases lines@.len() - i,
        {
            assert(all.take(i + 1).drop_last() =~= all.take(i as int));
            assert(all.take(i + 1).last() == lines@[i as int]@);
            let key = text_trim(lines[i].as_str());
            if !is_empty_text(key) {
                let ghost before = text::texts(keys@);
                keys.push(key.to_owned());
                assert(text::texts(keys@) =~= before.push(key@));
            }
            i = i + 1;
        }
        assert(all.take(i as int) =~= all);
        assert(text::texts(keys@).len() == keys@.len());
        if keys.len() == 0 {
            return Err(KeyError::NoKeys);
        }
        Ok(KeyManager { keys, current_index: 0 })
    }

    /// The key whose turn it is.
    pub fn get_next_key(&mut self) -> (r: String)
        ensures
            r@ == key_in_turn(old(self).keys(), old(self).handed_out() as int),
            final(self).keys() == old(self).keys(),
            final(self).handed_out() == (if old(self).handed_out() == usize::MAX {
                0
            } else {
                old(self).handed_out() + 1
            }),
    {
        proof {
            use_type_invariant(&*self);
        }
        let index = self.current_index;
        self.current_index = if index == usize::MAX {
            0
        } else {
            index + 1
        };
        self.keys[index % self.keys.len()].clone()
    }
}

fn is_empty_text(value: &str) -> (r: bool)
    ensures
        r == (value@.len() == 0),
{
    let empty = text::text_eq(value, "");
    proof {
        reveal_strlit("");
        if value@.len() == 0 {
            assert(value@ =~= ""@);
        }
    }
    empty
}

/// The key that is handed out after `turn` others.
pub open spec fn key_in_turn(keys: Seq<Seq<char>>, turn: int) -> Seq<char> {
    keys[turn % (keys.len() as int)]
}

/// The law of the keys: of as many turns on end as there are keys, each key has one and only one.
pub proof fn keys_take_turns(keys: Seq<Seq<char>>, from: int, k: int)
    requires
        from >= 0,
        0 <= k < keys.len(),
    ensures
        exists|turn: int|
            from <= turn < from + keys.len() && #[trigger] (turn % (keys.len() as int)) == k
                && key_in_turn(keys, turn) == keys[k],
        forall|a: int, b: int|
            from <= a < from + keys.len() && from <= b < from + keys.len() && #[trigger] (a % (
            keys.len() as int)) == k && #[trigger] (b % (keys.len() as int)) == k ==> a == b,
{
    let n = keys.len() as int;
    let shift = (k - from) % n;
    let turn = from + shift;
    assert(turn % n == k) by {
        vstd::arithmetic::div_mod::lemma_add_mod_noop_right(from, k - from, n);
        vstd::arithmetic::div_mod::lemma_small_mod(k as nat, n as nat);
    }
    assert(key_in_turn(keys, turn) == keys[k]);
    assert forall|a: int, b: int|
        from <= a < from + n && from <= b < from + n && #[trigger] (a % n) == k && #[trigger] (b
            % n) == k implies a == b by {
        vstd::arithmetic::div_mod::lemma_fundamental_div_mod(a, n);
        vstd::arithmetic::div_mod::lemma_fundamental_div_mod(b, n);
        let qa = a / n;
        let qb = b / n;
        assert(a - b == n * (qa - qb)) by (nonlinear_arith)
            requires
                a == n * qa + k,
                b == n * qb + k,
        ;
        assert(qa == qb) by (nonlinear_arith)
            requires
                a - b == n * (qa - qb),
                -n < a - b < n,
                n > 0,
        ;
    }
}

} // verus!
