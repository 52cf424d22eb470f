use vstd::prelude::*;
use vstd::string::*;
use crate::text::push_char;

verus! {

/// A lower-case ASCII letter.
pub open spec fn is_letter(c: char) -> bool {
    'a' <= c && c <= 'z'
}

/// Every character of `s` is a lower-case letter.
pub open spec fn all_letters(s: Seq<char>) -> bool {
    forall|i: int| 0 <= i < s.len() ==> is_letter(#[trigger] s[i])
}

/// The letter that follows `c` in the alphabet.
pub open spec fn next_letter(c: char) -> char {
    ((c as u8) + 1) as u8 as char
}

/// The value of a letter as a digit: `a` is 1, `z` is 26.
pub open spec fn digit(c: char) -> int {
    c as int - 'a' as int + 1
}

/// The value of a name read as a bijective base-26 numeral (`a` = 1, `z` = 26, `aa` = 27).
pub open spec fn rank(s: Seq<char>) -> int
    decreases s.len(),
{
    if s.len() == 0 {
        0
    } else {
        rank(s.drop_last()) * 26 + digit(s.last())
    }
}

/// The name that follows `s`: the last letter is incremented, and a `z` carries into the
/// position before it, as in counting; a carry out of the first position adds a new `a`.
pub open spec fn succ(s: Seq<char>) -> Seq<char>
    decreases s.len(),
{
    if s.len() == 0 {
        seq!['a']
    } else if s.last() != 'z' {
        s.drop_last().push(next_letter(s.last()))
    } else {
        succ(s.drop_last()).push('a')
    }
}

/// A run of `n` letters `a`.
pub open spec fn a_run(n: nat) -> Seq<char> {
    Seq::new(n, |_i: int| 'a')
}

/// The successor of a name counts up by exactly one, and stays a name of letters.
pub proof fn lemma_succ_rank(s: Seq<char>)
    requires
        all_letters(s),
    ensures
        all_letters(succ(s)),
        rank(succ(s)) == rank(s) + 1,
        succ(s).len() >= s.len(),
    decreases s.len(),
{
    if s.len() == 0 {
        assert(succ(s).drop_last() =~= Seq::<char>::empty());
        assert(rank(Seq::<char>::empty()) == 0);
    } else if s.last() != 'z' {
        let t = succ(s);
        let c = s.last();
        assert(is_letter(c));
        assert((c as u8) as int == c as int);
        assert(next_letter(c) as int == c as int + 1);
        assert(t.drop_last() =~= s.drop_last());
        assert(forall|i: int| 0 <= i < s.drop_last().len() ==> s.drop_last()[i] == s[i]);
        assert(rank(t) == rank(s.drop_last()) * 26 + digit(next_letter(c)));
    } else {
        let d = s.drop_last();
        assert(forall|i: int| 0 <= i < d.len() ==> d[i] == s[i]);
        lemma_succ_rank(d);
        let t = succ(s);
        assert(t.drop_last() =~= succ(d));
        assert(rank(t) == rank(succ(d)) * 26 + digit('a'));
        assert(rank(s) == rank(d) * 26 + digit('z'));
    }
}

/// The name `k` steps after `s`.
pub open spec fn succ_n(s: Seq<char>, k: nat) -> Seq<char>
    decreases k,
{
    if k == 0 {
        s
    } else {
        succ(succ_n(s, (k - 1) as nat))
    }
}

proof fn lemma_succ_n_rank(s: Seq<char>, k: nat)
    requires
        all_letters(s),
    ensures
        all_letters(succ_n(s, k)),
        rank(succ_n(s, k)) == rank(s) + k,
    decreases k,
{
    if k > 0 {
        lemma_succ_n_rank(s, (k - 1) as nat);
        lemma_succ_rank(succ_n(s, (k - 1) as nat));
    }
}

/// The generator never returns to a name it has held: from a name of letters, the names
/// after different numbers of steps are different.
pub proof fn lemma_names_distinct(s: Seq<char>, a: nat, b: nat)
    requires
        all_letters(s),
        a != b,
    ensures
        succ_n(s, a) != succ_n(s, b),
{
    lemma_succ_n_rank(s, a);
    lemma_succ_n_rank(s, b);
}

/// `succ` on a name whose last letter that is not `z` stands at `j - 1`.
proof fn lemma_succ_shape(s: Seq<char>, j: int)
    requires
        0 < j <= s.len(),
        s[j - 1] != 'z',
        forall|k: int| j <= k < s.len() ==> s[k] == 'z',
    ensures
        succ(s) =~= s.subrange(0, j - 1).push(next_letter(s[j - 1])) + a_run((s.len() - j) as nat),
    decreases s.len(),
{
    if j == s.len() {
        assert(s.drop_last() =~= s.subrange(0, j - 1));
    } else {
        let d = s.drop_last();
        lemma_succ_shape(d, j);
        assert(d.subrange(0, j - 1) =~= s.subrange(0, j - 1));
    }
}

/// `succ` on a name made of `z` alone.
proof fn lemma_succ_all_z(s: Seq<char>)
    requires
        forall|k: int| 0 <= k < s.len() ==> s[k] == 'z',
    ensures
        succ(s) =~= a_run((s.len() + 1) as nat),
    decreases s.len(),
{
    if s.len() > 0 {
        lemma_succ_all_z(s.drop_last());
    }
}

/// The successor of `input` as a name, or an error where `input` holds a character that
/// is not a lower-case letter.
fn shift(input: &str) -> (r: Result<String, String>)
    ensures
        match r {
            Ok(s) => all_letters(input@) && s@ == succ(input@),
            Err(_) => !all_letters(input@),
        },
{
    let n = input.unicode_len();
    let mut i: usize = 0;
    while i < n
        invariant
            i <= n,
            n == input@.len(),
            forall|k: int| 0 <= k < i ==> is_letter(#[trigger] input@[k]),
        decreases n - i,
    {
        let c = input.get_char(i);
        if !('a' <= c && c <= 'z') {
            return Err(String::from_str("Error"));
        }
        i += 1;
    }
    let mut j: usize = n;
    while j > 0 && input.get_char(j - 1) == 'z'
        invariant
            j <= n,
            n == input@.len(),
            forall|k: int| j <= k < n ==> input@[k] == 'z',
        decreases j,
    {
        j -= 1;
    }
    let mut out = String::new();
    let mut k: usize = 0;
    if j == 0 {
        push_char(&mut out, 'a');
        while k < n
            invariant
                k <= n,
                n == input@.len(),
                out@ =~= a_run((k + 1) as nat),
            decreases n - k,
        {
            push_char(&mut out, 'a');
            k += 1;
        }
        proof {
            lemma_succ_all_z(input@);
        }
    } else {
        while k < j - 1
            invariant
                0 < j <= n,
                k <= j - 1,
                n == input@.len(),
                out@ =~= input@.subrange(0, k as int),
            decreases j - 1 - k,
        {
            push_char(&mut out, input.get_char(k));
            k += 1;
        }
        let c = input.get_char(j - 1);
        let c2 = ((c as u8) + 1) as char;
        push_char(&mut out, c2);
        k = 0;
        let ghost base = out@;
        while k < n - j
            invariant
                0 < j <= n,
                k <= n - j,
                n == input@.len(),
                out@ =~= base + a_run(k as nat),
            decreases n - j - k,
        {
            push_char(&mut out, 'a');
            k += 1;
        }
        proof {
            lemma_succ_shape(input@, j as int);
        }
    }
    Ok(out)
}

/// A generator of fresh names: `a`, `b`, ..., `z`, `aa`, `ab`, ...
pub struct NameGen {
    pub curr_ident: String,
}

impl NameGen {
    /// The generator in its starting state.
    pub fn new() -> (r: NameGen)
        ensures
            r.curr_ident@ == seq!['a'],
    {
        let mut s = String::new();
        push_char(&mut s, 'a');
        NameGen { curr_ident: s }
    }

    /// The generator's state is a name of lower-case letters.
    pub open spec fn wf(&self) -> bool {
        all_letters(self.curr_ident@)
    }

    /// Whether the state is a name of lower-case letters, from which `next` succeeds.
    pub fn is_valid(&self) -> (r: bool)
        ensures
            r == self.wf(),
    {
        let s = self.curr_ident.as_str();
        let n = s.unicode_len();
        let mut i: usize = 0;
        while i < n
            invariant
                i <= n,
                n == s@.len(),
                s@ == self.curr_ident@,
                forall|k: int| 0 <= k < i ==> is_letter(#[trigger] s@[k]),
            decreases n - i,
        {
            let c = s.get_char(i);
            if !('a' <= c && c <= 'z') {
                return false;
            }
            i += 1;
        }
        true
    }

    /// Advances to the next name and returns it. Fails, and leaves the state as it was,
    /// where the current name holds a character that is not a lower-case letter.
    pub fn next(&mut self) -> (r: Result<String, String>)
        ensures
            r.is_ok() == old(self).wf(),
            r.is_ok() ==> final(self).curr_ident@ == succ(old(self).curr_ident@)
                && rank(final(self).curr_ident@) == rank(old(self).curr_ident@) + 1
                && final(self).wf() && r.unwrap()@ == final(self).curr_ident@,
            r.is_err() ==> final(self).curr_ident@ == old(self).curr_ident@,
    {
        match shift(self.curr_ident.as_str()) {
            Ok(s) => {
                proof {
                    lemma_succ_rank(self.curr_ident@);
                }
                self.curr_ident = s;
                Ok(self.curr_ident.clone())
            },
            Err(e) => Err(e),
        }
    }
}

} // verus!
