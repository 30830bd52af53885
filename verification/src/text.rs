//! Character-sequence helpers shared by the normalizer: searching and
//! splitting on a separator, and decimal reading and writing of small
//! numbers, each with a specification-level definition that the
//! executable code is proved against.
use vstd::prelude::*;
use vstd::string::StrSliceExecFns;
use vstd::string::StringExecFns;

verus! {

/// Index of the first occurrence of `sep` in `s`, or -1 when absent.
pub open spec fn find_char(s: Seq<char>, sep: char) -> int
    decreases s.len(),
{
    if s.len() == 0 {
        -1
    } else if s[0] == sep {
        0
    } else {
        let r = find_char(s.drop_first(), sep);
        if r < 0 {
            -1
        } else {
            r + 1
        }
    }
}

pub proof fn lemma_find_char(s: Seq<char>, sep: char)
    ensures
        -1 <= find_char(s, sep) < s.len(),
        find_char(s, sep) >= 0 ==> s[find_char(s, sep)] == sep,
        find_char(s, sep) >= 0 ==> forall|k: int| 0 <= k < find_char(s, sep) ==> s[k] != sep,
        find_char(s, sep) == -1 ==> forall|k: int| 0 <= k < s.len() ==> s[k] != sep,
    decreases s.len(),
{
    if s.len() == 0 {
    } else if s[0] == sep {
    } else {
        lemma_find_char(s.drop_first(), sep);
        let d = s.drop_first();
        let f = find_char(s, sep);
        if find_char(d, sep) >= 0 {
            assert(s[f] == d[f - 1]);
            assert forall|k: int| 0 <= k < f implies s[k] != sep by {
                if k >= 1 {
                    assert(s[k] == d[k - 1]);
                }
            }
        } else {
            assert forall|k: int| 0 <= k < s.len() implies s[k] != sep by {
                if k >= 1 {
                    assert(s[k] == d[k - 1]);
                }
            }
        }
    }
}

/// The first occurrence is pinned: a separator at `j` with none before it
/// is where `find_char` points.
pub proof fn lemma_find_char_unique(s: Seq<char>, sep: char, j: int)
    requires
        0 <= j < s.len(),
        s[j] == sep,
        forall|k: int| 0 <= k < j ==> s[k] != sep,
    ensures
        find_char(s, sep) == j,
{
    lemma_find_char(s, sep);
    let f = find_char(s, sep);
    if f == -1 {
        assert(s[j] != sep);
    } else if f < j {
        assert(s[f] != sep);
    } else if f > j {
        assert(s[j] != sep);
    }
}

/// Splitting on a separator, as `str::split` does: the segments between
/// occurrences of `sep`, in order; always at least one segment.
pub open spec fn split_char(s: Seq<char>, sep: char) -> Seq<Seq<char>>
    decreases s.len(),
{
    let i = find_char(s, sep);
    if i < 0 {
        seq![s]
    } else {
        proof {
            lemma_find_char(s, sep);
        }
        seq![s.take(i)] + split_char(s.skip(i + 1), sep)
    }
}

/// Whether `s` contains `c`, stated through `find_char`.
pub fn contains_char(s: &str, c: char) -> (r: bool)
    ensures
        r == (find_char(s@, c) >= 0),
{
    let n = s.unicode_len();
    let mut i: usize = 0;
    while i < n
        invariant
            n == s@.len(),
            0 <= i <= n,
            forall|k: int| 0 <= k < i ==> s@[k] != c,
        decreases n - i,
    {
        if s.get_char(i) == c {
            proof {
                lemma_find_char_unique(s@, c, i as int);
            }
            return true;
        }
        i += 1;
    }
    proof {
        lemma_find_char(s@, c);
        if find_char(s@, c) >= 0 {
            assert(s@[find_char(s@, c)] != c);
        }
    }
    false
}

/// `str::split`, proved to yield exactly the segments of `split_char`.
pub fn split_str(s: &str, sep: char) -> (parts: Vec<String>)
    ensures
        parts@.map_values(|p: String| p@) == split_char(s@, sep),
{
    let n = s.unicode_len();
    let mut parts: Vec<String> = Vec::new();
    let mut seg_start: usize = 0;
    let mut i: usize = 0;
    proof {
        assert(s@.skip(0) =~= s@);
        assert(parts@.map_values(|p: String| p@) =~= Seq::<Seq<char>>::empty());
        assert(Seq::<Seq<char>>::empty() + split_char(s@, sep) =~= split_char(s@, sep));
    }
    while i < n
        invariant
            n == s@.len(),
            0 <= seg_start <= i <= n,
            forall|k: int| seg_start <= k < i ==> s@[k] != sep,
            split_char(s@, sep) == parts@.map_values(|p: String| p@) + split_char(
                s@.skip(seg_start as int),
                sep,
            ),
        decreases n - i,
    {
        if s.get_char(i) == sep {
            let part = s.substring_char(seg_start, i).to_owned();
            proof {
                let tail = s@.skip(seg_start as int);
                assert(forall|k: int|
                    0 <= k < tail.len() ==> tail[k] == s@[k + seg_start as int]);
                lemma_find_char_unique(tail, sep, i - seg_start as int);
                assert(tail.take(i - seg_start as int) =~= s@.subrange(
                    seg_start as int,
                    i as int,
                ));
                assert(tail.skip(i - seg_start as int + 1) =~= s@.skip(i as int + 1));
                assert((parts@.push(part)).map_values(|p: String| p@) =~= parts@.map_values(
                    |p: String| p@,
                ).push(part@));
                assert(split_char(s@, sep) == (parts@.push(part)).map_values(|p: String| p@)
                    + split_char(s@.skip(i as int + 1), sep));
            }
            parts.push(part);
            seg_start = i + 1;
        }
        i += 1;
    }
    let last = s.substring_char(seg_start, n).to_owned();
    proof {
        let tail = s@.skip(seg_start as int);
        assert(forall|k: int| 0 <= k < tail.len() ==> tail[k] == s@[k + seg_start as int]);
        lemma_find_char(tail, sep);
        if find_char(tail, sep) >= 0 {
            assert(tail[find_char(tail, sep)] != sep);
        }
        assert(split_char(tail, sep) == seq![tail]);
        assert(last@ =~= tail);
        assert((parts@.push(last)).map_values(|p: String| p@) =~= parts@.map_values(
            |p: String| p@,
        ).push(last@));
        assert((parts@.push(last)).map_values(|p: String| p@) =~= split_char(s@, sep));
    }
    parts.push(last);
    parts
}

/// The character for one decimal digit.
pub open spec fn digit_char(d: nat) -> char {
    if d == 0 {
        '0'
    } else if d == 1 {
        '1'
    } else if d == 2 {
        '2'
    } else if d == 3 {
        '3'
    } else if d == 4 {
        '4'
    } else if d == 5 {
        '5'
    } else if d == 6 {
        '6'
    } else if d == 7 {
        '7'
    } else if d == 8 {
        '8'
    } else {
        '9'
    }
}

pub open spec fn is_digit(c: char) -> bool {
    '0' as int <= c as int <= '9' as int
}

pub open spec fn digit_val(c: char) -> nat {
    (c as int - '0' as int) as nat
}

pub open spec fn all_digits(s: Seq<char>) -> bool {
    forall|k: int| 0 <= k < s.len() ==> is_digit(#[trigger] s[k])
}

/// The number read from a digit string, most significant digit first.
pub open spec fn dec_value(s: Seq<char>) -> nat
    decreases s.len(),
{
    if s.len() == 0 {
        0
    } else {
        dec_value(s.drop_last()) * 10 + digit_val(s.last())
    }
}

/// The canonical decimal representation of a number: no leading zeros,
/// a single `'0'` for zero.
pub open spec fn dec_rep(n: nat) -> Seq<char>
    decreases n,
{
    if n < 10 {
        seq![digit_char(n)]
    } else {
        dec_rep(n / 10).push(digit_char(n % 10))
    }
}

/// A nonempty digit string without a leading zero is at least as large as
/// the smallest number of its width.
pub proof fn lemma_dec_value_min(s: Seq<char>)
    requires
        s.len() >= 1,
        all_digits(s),
        digit_val(s[0]) >= 1,
    ensures
        dec_value(s) >= 1,
        s.len() >= 2 ==> dec_value(s) >= 10,
        s.len() >= 3 ==> dec_value(s) >= 100,
        s.len() >= 4 ==> dec_value(s) >= 1000,
    decreases s.len(),
{
    if s.len() == 1 {
        assert(s.drop_last().len() == 0);
        assert(s.last() == s[0]);
    } else {
        let d = s.drop_last();
        assert(d[0] == s[0]);
        assert(all_digits(d)) by {
            assert(forall|k: int| 0 <= k < d.len() ==> d[k] == s[k]);
        }
        lemma_dec_value_min(d);
    }
}

/// One decimal digit as a string slice.
pub fn digit_str(d: u32) -> (r: &'static str)
    requires
        d < 10,
    ensures
        r@ == seq![digit_char(d as nat)],
{
    if d == 0 {
        proof {
            reveal_strlit("0");
        }
        assert("0"@ =~= seq![digit_char(0)]);
        "0"
    } else if d == 1 {
        proof {
            reveal_strlit("1");
        }
        assert("1"@ =~= seq![digit_char(1)]);
        "1"
    } else if d == 2 {
        proof {
            reveal_strlit("2");
        }
        assert("2"@ =~= seq![digit_char(2)]);
        "2"
    } else if d == 3 {
        proof {
            reveal_strlit("3");
        }
        assert("3"@ =~= seq![digit_char(3)]);
        "3"
    } else if d == 4 {
        proof {
            reveal_strlit("4");
        }
        assert("4"@ =~= seq![digit_char(4)]);
        "4"
    } else if d == 5 {
        proof {
            reveal_strlit("5");
        }
        assert("5"@ =~= seq![digit_char(5)]);
        "5"
    } else if d == 6 {
        proof {
            reveal_strlit("6");
        }
        assert("6"@ =~= seq![digit_char(6)]);
        "6"
    } else if d == 7 {
        proof {
            reveal_strlit("7");
        }
        assert("7"@ =~= seq![digit_char(7)]);
        "7"
    } else if d == 8 {
        proof {
            reveal_strlit("8");
        }
        assert("8"@ =~= seq![digit_char(8)]);
        "8"
    } else {
        proof {
            reveal_strlit("9");
        }
        assert("9"@ =~= seq![digit_char(9)]);
        "9"
    }
}

/// Append the canonical decimal representation of `n` to `s`.
pub fn push_dec_u8(s: &mut String, n: u8)
    ensures
        final(s)@ == old(s)@ + dec_rep(n as nat),
{
    let ghost pre = s@;
    if n >= 100 {
        s.append(digit_str((n / 100) as u32));
    }
    if n >= 10 {
        s.append(digit_str(((n / 10) % 10) as u32));
    }
    s.append(digit_str((n % 10) as u32));
    proof {
        let nn = n as nat;
        if n < 10 {
            assert(s@ =~= pre + dec_rep(nn));
        } else if n < 100 {
            assert(dec_rep(nn) == dec_rep(nn / 10).push(digit_char(nn % 10)));
            assert(nn / 10 < 10);
            assert(nn / 10 == (n / 10) as nat % 10);
            assert(s@ =~= pre + dec_rep(nn));
        } else {
            assert(dec_rep(nn) == dec_rep(nn / 10).push(digit_char(nn % 10)));
            assert(nn / 10 >= 10);
            assert(dec_rep(nn / 10) == dec_rep(nn / 10 / 10).push(digit_char(nn / 10 % 10)));
            assert(nn / 10 / 10 == nn / 100);
            assert(nn / 100 < 10);
            assert(s@ =~= pre + dec_rep(nn));
        }
    }
}

} // verus!
