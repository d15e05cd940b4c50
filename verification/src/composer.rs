//! The predicate composer: a specification string names predicates joined
//! by `+` (any of them suffices) or by `X` (all must hold); names are
//! resolved against the fixed registry and unknown names are dropped.

use vstd::prelude::*;

verus! {

use crate::primality;
use crate::primality::{
    spec_is_fermi_dirac, spec_is_pernicious, spec_is_prime, spec_is_prime_power,
    spec_is_pythagorean_prime, spec_is_semiprime, spec_is_squarefree_semiprime,
};
use vstd::string::StrSliceExecFns;

/// One predicate of the registry, dispatched by tag.
#[derive(Clone, Copy, PartialEq, Eq, Structural, Debug)]
pub enum Predicate {
    Primes,
    Pythagoreans,
    Semiprimes,
    SquarefreeSemiprimes,
    Pernicious,
    PrimePowers,
    FermiDirac,
}

/// What each registry entry decides about a number.
pub open spec fn spec_eval(p: Predicate, n: int) -> bool {
    match p {
        Predicate::Primes => spec_is_prime(n),
        Predicate::Pythagoreans => spec_is_pythagorean_prime(n),
        Predicate::Semiprimes => spec_is_semiprime(n),
        Predicate::SquarefreeSemiprimes => spec_is_squarefree_semiprime(n),
        Predicate::Pernicious => spec_is_pernicious(n),
        Predicate::PrimePowers => spec_is_prime_power(n),
        Predicate::FermiDirac => spec_is_fermi_dirac(n),
    }
}

/// The name registry: an exact-match lookup, `None` for unknown names.
pub open spec fn spec_lookup(name: Seq<char>) -> Option<Predicate> {
    if name == "primes"@ {
        Some(Predicate::Primes)
    } else if name == "pythagoreans"@ {
        Some(Predicate::Pythagoreans)
    } else if name == "semiprimes"@ {
        Some(Predicate::Semiprimes)
    } else if name == "squarefree-semiprimes"@ {
        Some(Predicate::SquarefreeSemiprimes)
    } else if name == "pernicious"@ {
        Some(Predicate::Pernicious)
    } else if name == "prime-powers"@ {
        Some(Predicate::PrimePowers)
    } else if name == "fermi-dirac"@ {
        Some(Predicate::FermiDirac)
    } else {
        None
    }
}

/// The predicates a single token contributes: one or none.
pub open spec fn lookup_seq(name: Seq<char>) -> Seq<Predicate> {
    match spec_lookup(name) {
        Some(p) => seq![p],
        None => Seq::empty(),
    }
}

/// Resolution of a specification string, one character at a time: `cur` is
/// the token accumulated so far, and each separator ends a token.
pub open spec fn resolve_acc(s: Seq<char>, sep: char, cur: Seq<char>) -> Seq<Predicate>
    decreases s.len(),
{
    if s.len() == 0 {
        lookup_seq(cur)
    } else if s[0] == sep {
        lookup_seq(cur) + resolve_acc(s.subrange(1, s.len() as int), sep, Seq::empty())
    } else {
        resolve_acc(s.subrange(1, s.len() as int), sep, cur.push(s[0]))
    }
}

/// The ordered predicates named by `s` when split on `sep`.
pub open spec fn resolve_preds(s: Seq<char>, sep: char) -> Seq<Predicate> {
    resolve_acc(s, sep, Seq::empty())
}

/// The `All` separator appears somewhere in the string.
pub open spec fn spec_has_all_sep(s: Seq<char>) -> bool {
    exists|i: int| 0 <= i < s.len() && s[i] == 'X'
}

/// The separator the string is split on: `X` selects `All` mode and takes
/// precedence, `+` is the `Any` default.
pub open spec fn spec_sep(s: Seq<char>) -> char {
    if spec_has_all_sep(s) {
        'X'
    } else {
        '+'
    }
}

/// The full resolution of a specification string.
pub open spec fn spec_resolve(s: Seq<char>) -> Seq<Predicate> {
    resolve_preds(s, spec_sep(s))
}

/// A number satisfies a resolved list: under `All` every predicate must
/// hold (vacuously true of an empty list), under `Any` at least one must.
pub open spec fn spec_is_valid(preds: Seq<Predicate>, conj: bool, n: int) -> bool {
    if conj {
        forall|i: int| 0 <= i < preds.len() ==> spec_eval(#[trigger] preds[i], n)
    } else {
        exists|i: int| 0 <= i < preds.len() && spec_eval(#[trigger] preds[i], n)
    }
}

/// Splitting off the leading separator-free token `s[pos..j]` of the
/// suffix `s[pos..]` decomposes resolution into that token's contribution
/// followed by the resolution of the rest.
proof fn lemma_resolve_token(s: Seq<char>, sep: char, pos: int, j: int, cur: Seq<char>)
    requires
        0 <= pos <= j <= s.len(),
        forall|k: int| pos <= k < j ==> s[k] != sep,
        j == s.len() || s[j] == sep,
    ensures
        resolve_acc(s.subrange(pos, s.len() as int), sep, cur) == lookup_seq(
            cur + s.subrange(pos, j),
        ) + if j == s.len() {
            Seq::<Predicate>::empty()
        } else {
            resolve_acc(s.subrange(j + 1, s.len() as int), sep, Seq::empty())
        },
    decreases j - pos,
{
    let len = s.len() as int;
    let suf = s.subrange(pos, len);
    if pos == j {
        assert(cur + s.subrange(pos, j) =~= cur);
        if j == len {
            assert(suf.len() == 0);
            assert(lookup_seq(cur) + Seq::<Predicate>::empty() =~= lookup_seq(cur));
        } else {
            assert(suf[0] == s[pos]);
            assert(suf.subrange(1, suf.len() as int) =~= s.subrange(pos + 1, len));
        }
    } else {
        assert(suf[0] == s[pos]);
        assert(suf.subrange(1, suf.len() as int) =~= s.subrange(pos + 1, len));
        lemma_resolve_token(s, sep, pos + 1, j, cur.push(s[pos]));
        assert(cur.push(s[pos]) + s.subrange(pos + 1, j) =~= cur + s.subrange(pos, j));
    }
}

/// Character-for-character string equality.
fn str_eq(a: &str, b: &str) -> (r: bool)
    ensures
        r == (a@ == b@),
{
    let alen = a.unicode_len();
    let blen = b.unicode_len();
    if alen != blen {
        return false;
    }
    let mut i: usize = 0;
    while i < alen
        invariant
            0 <= i <= alen,
            alen == a@.len(),
            alen == b@.len(),
            forall|k: int| 0 <= k < i ==> a@[k] == b@[k],
        decreases alen - i,
    {
        if a.get_char(i) != b.get_char(i) {
            return false;
        }
        i = i + 1;
    }
    proof {
        assert(a@ =~= b@);
    }
    true
}

/// The registry lookup: a name maps to its predicate, anything else to
/// `None`.
pub fn get_function(ntype: &str) -> (r: Option<Predicate>)
    ensures
        r == spec_lookup(ntype@),
{
    if str_eq(ntype, "primes") {
        Some(Predicate::Primes)
    } else if str_eq(ntype, "pythagoreans") {
        Some(Predicate::Pythagoreans)
    } else if str_eq(ntype, "semiprimes") {
        Some(Predicate::Semiprimes)
    } else if str_eq(ntype, "squarefree-semiprimes") {
        Some(Predicate::SquarefreeSemiprimes)
    } else if str_eq(ntype, "pernicious") {
        Some(Predicate::Pernicious)
    } else if str_eq(ntype, "prime-powers") {
        Some(Predicate::PrimePowers)
    } else if str_eq(ntype, "fermi-dirac") {
        Some(Predicate::FermiDirac)
    } else {
        None
    }
}

/// Split the input on its separator, resolve every token, and report
/// whether `All` mode was selected.
pub fn define_functions(input: &str) -> (r: (Vec<Predicate>, bool))
    ensures
        r.0@ == spec_resolve(input@),
        r.1 == spec_has_all_sep(input@),
{
    let len = input.unicode_len();
    let mut has_x = false;
    let mut i: usize = 0;
    while i < len
        invariant
            0 <= i <= len,
            len == input@.len(),
            has_x == exists|k: int| 0 <= k < i && input@[k] == 'X',
        decreases len - i,
    {
        if input.get_char(i) == 'X' {
            has_x = true;
        }
        i = i + 1;
    }
    let sep: char = if has_x {
        'X'
    } else {
        '+'
    };
    let mut preds: Vec<Predicate> = Vec::new();
    let mut pos: usize = 0;
    proof {
        assert(input@.subrange(0, len as int) =~= input@);
    }
    loop
        invariant_except_break
            0 <= pos <= len,
            len == input@.len(),
            sep == spec_sep(input@),
            spec_resolve(input@) == preds@ + resolve_acc(
                input@.subrange(pos as int, len as int),
                sep,
                Seq::empty(),
            ),
        ensures
            preds@ == spec_resolve(input@),
        decreases len - pos,
    {
        let mut j = pos;
        while j < len && input.get_char(j) != sep
            invariant
                pos <= j <= len,
                len == input@.len(),
                forall|k: int| pos <= k < j ==> input@[k] != sep,
            decreases len - j,
        {
            j = j + 1;
        }
        let tok = input.substring_char(pos, j);
        match get_function(tok) {
            Some(p) => preds.push(p),
            None => {},
        }
        proof {
            lemma_resolve_token(input@, sep, pos as int, j as int, Seq::empty());
            assert(Seq::empty() + input@.subrange(pos as int, j as int) =~= input@.subrange(
                pos as int,
                j as int,
            ));
            assert(tok@ == input@.subrange(pos as int, j as int));
        }
        if j == len {
            proof {
                assert(preds@ + Seq::<Predicate>::empty() =~= preds@);
            }
            break;
        }
        pos = j + 1;
    }
    (preds, has_x)
}

/// Evaluate one registry predicate.
pub fn eval_predicate(p: Predicate, n: usize) -> (r: bool)
    ensures
        r == spec_eval(p, n as int),
{
    match p {
        Predicate::Primes => primality::is_prime(n),
        Predicate::Pythagoreans => primality::is_pythagorean_prime(n),
        Predicate::Semiprimes => primality::is_semiprime(n),
        Predicate::SquarefreeSemiprimes => primality::is_squarefree_semiprime(n),
        Predicate::Pernicious => primality::is_pernicious(n),
        Predicate::PrimePowers => primality::is_prime_power(n),
        Predicate::FermiDirac => primality::is_fermi_dirac(n),
    }
}

/// Combine the resolved predicates: all of them under `All` mode
/// (`switch` set), any of them otherwise, short-circuiting either way.
pub fn is_valid_number(n: usize, functions: &[Predicate], switch: bool) -> (r: bool)
    ensures
        r == spec_is_valid(functions@, switch, n as int),
{
    let mut i: usize = 0;
    if switch {
        while i < functions.len()
            invariant
                switch,
                0 <= i <= functions@.len(),
                forall|k: int| 0 <= k < i ==> spec_eval(#[trigger] functions@[k], n as int),
            decreases functions@.len() - i,
        {
            if !eval_predicate(functions[i], n) {
                return false;
            }
            i = i + 1;
        }
        true
    } else {
        while i < functions.len()
            invariant
                !switch,
                0 <= i <= functions@.len(),
                forall|k: int| 0 <= k < i ==> !spec_eval(#[trigger] functions@[k], n as int),
            decreases functions@.len() - i,
        {
            if eval_predicate(functions[i], n) {
                return true;
            }
            i = i + 1;
        }
        false
    }
}

} // verus!
