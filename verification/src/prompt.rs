//! The decisions behind interactive prompts: which lines are accepted as
//! input, how a yes/no answer is read, and the set of names entered so far.
use crate::text::{lower_str, lowercase, trim_str, trimmed};
use vstd::prelude::*;

verus! {

/// An input line is accepted when something is left after trimming; the
/// trimmed text is what is kept.
pub fn accept_input(input: &str) -> (r: Option<String>)
    ensures
        trimmed(input@).len() == 0 ==> r is None,
        trimmed(input@).len() > 0 ==> (r matches Some(s) && s@ == trimmed(input@)),
{
    let t = trim_str(input);
    if !t.is_empty() {
        Some(t.to_owned())
    } else {
        None
    }
}

/// How an answer to a yes/no question reads.
#[derive(PartialEq, Eq, Structural, Clone, Copy, Debug)]
pub enum Answer {
    Yes,
    No,
    Blank,
    Invalid,
}

/// The reading of a normalised answer: `y` or `yes`, `n` or `no`, nothing
/// at all, or anything else.
pub open spec fn answer_of(s: Seq<char>) -> Answer {
    if s.len() == 0 {
        Answer::Blank
    } else if s == seq!['y'] || s == seq!['y', 'e', 's'] {
        Answer::Yes
    } else if s == seq!['n'] || s == seq!['n', 'o'] {
        Answer::No
    } else {
        Answer::Invalid
    }
}

/// A normalised answer reads yes exactly when it is `y` or `yes`, no exactly
/// when it is `n` or `no`, blank exactly when it is empty, and invalid in
/// every other case.
pub proof fn lemma_answer_readings(s: Seq<char>)
    ensures
        (answer_of(s) == Answer::Yes) == (s =~= seq!['y'] || s =~= seq!['y', 'e', 's']),
        (answer_of(s) == Answer::No) == (s =~= seq!['n'] || s =~= seq!['n', 'o']),
        (answer_of(s) == Answer::Blank) == (s.len() == 0),
        (answer_of(s) == Answer::Invalid) == (s.len() > 0 && !(s =~= seq!['y']) && !(s =~= seq!['y', 'e', 's'])
            && !(s =~= seq!['n']) && !(s =~= seq!['n', 'o'])),
{
    let y = seq!['y'];
    let yes = seq!['y', 'e', 's'];
    let n = seq!['n'];
    let no = seq!['n', 'o'];
    assert(y.len() == 1 && y[0] == 'y');
    assert(yes.len() == 3 && yes[0] == 'y');
    assert(n.len() == 1 && n[0] == 'n');
    assert(no.len() == 2 && no[0] == 'n');
}

/// Reads an answer that is already lower-cased and trimmed.
pub fn classify_normalized(s: &str) -> (r: Answer)
    ensures
        r == answer_of(s@),
{
    let n = s.unicode_len();
    if n == 0 {
        return Answer::Blank;
    }
    let c0 = s.get_char(0);
    if n == 1 {
        if c0 == 'y' {
            assert(s@ =~= seq!['y']);
            return Answer::Yes;
        }
        if c0 == 'n' {
            assert(s@ =~= seq!['n']);
            return Answer::No;
        }
        return Answer::Invalid;
    }
    if n == 2 {
        let c1 = s.get_char(1);
        if c0 == 'n' && c1 == 'o' {
            assert(s@ =~= seq!['n', 'o']);
            return Answer::No;
        }
        return Answer::Invalid;
    }
    if n == 3 {
        let c1 = s.get_char(1);
        let c2 = s.get_char(2);
        if c0 == 'y' && c1 == 'e' && c2 == 's' {
            assert(s@ =~= seq!['y', 'e', 's']);
            return Answer::Yes;
        }
        return Answer::Invalid;
    }
    Answer::Invalid
}

/// Reads a raw answer: lower-cased, then trimmed, then classified.
pub fn classify_answer(answer: &str) -> (r: Answer)
    ensures
        r == answer_of(trimmed(lowercase(answer@))),
{
    let lower = lower_str(answer);
    let t = trim_str(lower.as_str());
    classify_normalized(t)
}

/// One round of gathering user names: the name just entered is kept, and
/// gathering goes on exactly when the answer to "another user?" was yes.
pub fn add_user_step(names: &mut Vec<String>, name: String, another: bool) -> (go_on: bool)
    ensures
        final(names)@ == old(names)@.push(name),
        go_on == another,
{
    names.push(name);
    another
}

/// A set of names, none stored twice.
pub struct NameSet {
    names: Vec<String>,
}

impl NameSet {
    /// The names stored, in insertion order.
    pub closed spec fn entries(&self) -> Seq<Seq<char>> {
        self.names@.map_values(|s: String| s@)
    }

    /// The set of names stored.
    pub open spec fn members(&self) -> Set<Seq<char>> {
        self.entries().to_set()
    }

    /// No name is stored twice.
    pub open spec fn wf(&self) -> bool {
        forall|i: int, j: int| 0 <= i < j < self.entries().len() ==> self.entries()[i] != self.entries()[j]
    }

    /// An empty set.
    pub fn new() -> (s: Self)
        ensures
            s.wf(),
            s.members() == Set::<Seq<char>>::empty(),
    {
        let s = NameSet { names: Vec::new() };
        assert(s.entries() =~= Seq::<Seq<char>>::empty());
        assert(s.members() =~= Set::<Seq<char>>::empty());
        s
    }

    /// The number of names stored.
    pub fn len(&self) -> (n: usize)
        requires
            self.wf(),
        ensures
            n == self.members().len(),
    {
        proof {
            self.entries().unique_seq_to_set();
        }
        self.names.len()
    }

    /// Whether `name` is stored.
    pub fn contains(&self, name: &str) -> (b: bool)
        ensures
            b == self.members().contains(name@),
    {
        let k = name.to_owned();
        let mut i: usize = 0;
        while i < self.names.len()
            invariant
                i <= self.names@.len(),
                k@ == name@,
                forall|t: int| 0 <= t < i ==> self.entries()[t] != name@,
            decreases self.names@.len() - i,
        {
            if self.names[i] == k {
                assert(self.entries()[i as int] == name@);
                return true;
            }
            i = i + 1;
        }
        proof {
            if self.entries().contains(name@) {
                let t = choose|t: int| 0 <= t < self.entries().len() && self.entries()[t] == name@;
            }
        }
        false
    }
}

/// Adds `name` to the set of names entered so far; true when it was not
/// there before.
pub fn appened_names(hashes: &mut NameSet, name: &str) -> (added: bool)
    requires
        old(hashes).wf(),
    ensures
        final(hashes).wf(),
        added == !old(hashes).members().contains(name@),
        final(hashes).members() == old(hashes).members().insert(name@),
{
    if hashes.contains(name) {
        assert(hashes.members().insert(name@) =~= hashes.members());
        false
    } else {
        let ghost e0 = hashes.entries();
        hashes.names.push(name.to_owned());
        assert(hashes.entries() =~= e0.push(name@));
        let ghost e1 = hashes.entries();
        assert forall|y: Seq<char>| e1.contains(y) <==> (e0.contains(y) || y == name@) by {
            if e1.contains(y) {
                let t = choose|t: int| 0 <= t < e1.len() && e1[t] == y;
                if t < e0.len() {
                    assert(e0[t] == y);
                }
            }
            if e0.contains(y) {
                let t = choose|t: int| 0 <= t < e0.len() && e0[t] == y;
                assert(e1[t] == y);
            }
            if y == name@ {
                assert(e1[e0.len() as int] == y);
            }
        }
        assert(hashes.members() =~= e0.to_set().insert(name@));
        true
    }
}

} // verus!
