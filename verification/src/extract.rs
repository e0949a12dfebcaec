//! The names under which extracted entries are written.
//!
//! A PAK entry is written under its own name. A KUB entry has none and is
//! written as `FILE 1`, `FILE 2`, and so on, by its place in the index. A
//! name that was given out before gets a number behind it: the second entry
//! of a name becomes `name-1`, the third `name-2`.

use crate::text::{decimal, decimal_string, lemma_decimal_injective};
use vstd::prelude::*;
use vstd::string::StringExecFns;

verus! {

/// Gives each entry of an archive the name of its output file.
pub struct OutputNames {
    seen: Vec<String>,
}

/// `FILE `, the beginning of the name of an entry that has none.
pub open spec fn file_prefix() -> Seq<char> {
    seq!['F', 'I', 'L', 'E', ' ']
}

/// `FILE` and the number `n`.
pub open spec fn decimal_name(n: nat) -> Seq<char> {
    file_prefix() + decimal(n)
}

/// The name of an entry before duplicates are told apart: its own, or
/// `FILE` and its place in the index, counted from 1.
pub open spec fn base_name(name: Option<Seq<char>>, index: nat) -> Seq<char> {
    match name {
        Some(n) => n,
        None => decimal_name(index + 1),
    }
}

/// How often `base` occurs in `seen`.
pub open spec fn times_seen(seen: Seq<Seq<char>>, base: Seq<char>) -> nat
    decreases seen.len(),
{
    if seen.len() == 0 {
        0
    } else {
        times_seen(seen.drop_last(), base) + if seen.last() == base {
            1nat
        } else {
            0nat
        }
    }
}

/// The name of the output file of an entry that was seen `earlier` times
/// before: `base` the first time, then `base-1`, `base-2`, and so on.
pub open spec fn numbered(base: Seq<char>, earlier: nat) -> Seq<char> {
    if earlier == 0 {
        base
    } else {
        base + seq!['-'] + decimal(earlier)
    }
}

/// The name of the output file of the entry that follows the entries of
/// the base names `seen`.
pub open spec fn output_name(seen: Seq<Seq<char>>, name: Option<Seq<char>>) -> Seq<char> {
    let base = base_name(name, seen.len());
    numbered(base, times_seen(seen, base))
}

/// The base names of `k` entries without names.
pub open spec fn unnamed(k: nat) -> Seq<Seq<char>> {
    Seq::new(k, |j: int| base_name(None, j as nat))
}

/// `k` entries of the base name `base`.
pub open spec fn repeated(base: Seq<char>, k: nat) -> Seq<Seq<char>> {
    Seq::new(k, |j: int| base)
}

/// The entries of an archive without names are written as `FILE 1`,
/// `FILE 2`, and so on, in index order: none of them is taken for a
/// duplicate.
pub proof fn law_unnamed_are_numbered(k: nat)
    ensures
        output_name(unnamed(k), None) == decimal_name(k + 1),
{
    lemma_unnamed_not_seen(k, k);
}

/// The name that the next entry without a name gets is not among the
/// first `m` of those given out before.
proof fn lemma_unnamed_not_seen(k: nat, m: nat)
    requires
        m <= k,
    ensures
        times_seen(unnamed(k).subrange(0, m as int), base_name(None, k)) == 0,
        m == k ==> times_seen(unnamed(k), base_name(None, k)) == 0,
    decreases m,
{
    let seen = unnamed(k).subrange(0, m as int);
    if m > 0 {
        lemma_unnamed_not_seen(k, (m - 1) as nat);
        assert(seen.drop_last() =~= unnamed(k).subrange(0, m - 1));
        if seen.last() == base_name(None, k) {
            let a = file_prefix() + decimal(m as nat);
            let b = file_prefix() + decimal(k + 1);
            assert(a == b);
            assert(decimal(m as nat) =~= a.subrange(5, a.len() as int));
            assert(decimal(k + 1) =~= b.subrange(5, b.len() as int));
            lemma_decimal_injective(m as nat, k + 1);
        }
    }
    if m == k {
        assert(seen =~= unnamed(k));
    }
}

/// Entries of one name are written as `name`, `name-1`, `name-2`, and so
/// on: behind `k` entries of a name, the next of that name gets the number
/// `k`.
pub proof fn law_duplicates_are_numbered(name: Seq<char>, k: nat)
    ensures
        times_seen(repeated(name, k), name) == k,
        output_name(repeated(name, k), Some(name)) == numbered(name, k),
    decreases k,
{
    if k > 0 {
        law_duplicates_are_numbered(name, (k - 1) as nat);
        assert(repeated(name, k).drop_last() =~= repeated(name, (k - 1) as nat));
    }
}

impl View for OutputNames {
    type V = Seq<Seq<char>>;

    closed spec fn view(&self) -> Seq<Seq<char>> {
        Seq::new(self.seen@.len(), |i: int| self.seen@[i]@)
    }
}

impl OutputNames {
    /// No name was given out yet.
    pub fn new() -> (names: OutputNames)
        ensures
            names@ == Seq::<Seq<char>>::empty(),
    {
        let names = OutputNames { seen: Vec::new() };
        assert(names@ =~= Seq::<Seq<char>>::empty());
        names
    }

    /// How often `base` was the base name of an earlier entry.
    fn count(&self, base: &String) -> (n: usize)
        ensures
            n == times_seen(self@, base@),
    {
        let mut n: usize = 0;
        let mut i: usize = 0;
        while i < self.seen.len()
            invariant
                i <= self.seen@.len(),
                n <= i,
                n == times_seen(self@.subrange(0, i as int), base@),
            decreases self.seen@.len() - i,
        {
            assert(self@.subrange(0, i + 1).drop_last() =~= self@.subrange(0, i as int));
            if self.seen[i] == *base {
                n += 1;
            }
            i += 1;
        }
        assert(self@.subrange(0, i as int) =~= self@);
        n
    }

    /// The name of the output file of the next entry of the archive, whose
    /// own name is `name`.
    pub fn assign(&mut self, name: &Option<String>) -> (r: String)
        ensures
            r@ == output_name(
                old(self)@,
                match name {
                    Some(n) => Some(n@),
                    None => None,
                },
            ),
            final(self)@ == old(self)@.push(
                base_name(
                    match name {
                        Some(n) => Some(n@),
                        None => None,
                    },
                    old(self)@.len(),
                ),
            ),
    {
        let base = match name {
            Some(n) => n.clone(),
            None => {
                proof {
                    reveal_strlit("FILE ");
                }
                assert("FILE "@ =~= file_prefix());
                let number = decimal_string(self.seen.len() as u128 + 1);
                "FILE ".to_owned().concat(number.as_str())
            },
        };
        let earlier = self.count(&base);
        let given = if earlier == 0 {
            base.clone()
        } else {
            proof {
                reveal_strlit("-");
            }
            assert("-"@ =~= seq!['-']);
            let number = decimal_string(earlier as u128);
            base.clone().concat("-").concat(number.as_str())
        };
        self.seen.push(base);
        assert(self@ =~= old(self)@.push(base@));
        given
    }
}

} // verus!
