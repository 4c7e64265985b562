use vstd::prelude::*;

verus! {

/// Lexicographic order on character sequences by code point, the order in
/// which child directories are kept.
pub open spec fn seq_le(a: Seq<char>, b: Seq<char>) -> bool
    decreases a.len(),
{
    if a.len() == 0 {
        true
    } else if b.len() == 0 {
        false
    } else if a[0] != b[0] {
        (a[0] as u32) < (b[0] as u32)
    } else {
        seq_le(a.drop_first(), b.drop_first())
    }
}

/// `seq_le` is total.
pub proof fn lemma_seq_le_total(a: Seq<char>, b: Seq<char>)
    ensures
        seq_le(a, b) || seq_le(b, a),
    decreases a.len(),
{
    if a.len() > 0 && b.len() > 0 {
        if a[0] == b[0] {
            lemma_seq_le_total(a.drop_first(), b.drop_first());
        } else {
            vstd::utf8::char_u32_cast(a[0], a[0] as u32);
            vstd::utf8::char_u32_cast(b[0], b[0] as u32);
        }
    }
}

/// `seq_le` is transitive.
pub proof fn lemma_seq_le_trans(a: Seq<char>, b: Seq<char>, c: Seq<char>)
    requires
        seq_le(a, b),
        seq_le(b, c),
    ensures
        seq_le(a, c),
    decreases a.len(),
{
    if a.len() > 0 && b.len() > 0 && c.len() > 0 {
        if a[0] == b[0] && b[0] == c[0] {
            lemma_seq_le_trans(a.drop_first(), b.drop_first(), c.drop_first());
        }
    }
}

/// `p` is a prefix of `s`.
pub open spec fn is_prefix_of(p: Seq<char>, s: Seq<char>) -> bool {
    p.len() <= s.len() && s.take(p.len() as int) == p
}

/// What `str::to_lowercase` returns; it depends on the characters alone.
pub uninterp spec fn lower_of(s: Seq<char>) -> Seq<char>;

/// Relies on str::to_lowercase: the result is a function of the characters
/// alone, and lowercasing the empty string yields the empty string.
#[verifier::external_body]
pub fn to_lower_str(s: &str) -> (r: String)
    ensures
        r@ == lower_of(s@),
        s@.len() == 0 ==> r@.len() == 0,
{
    s.to_lowercase()
}

/// ASCII lowercasing of one character, used for the search buffer.
pub open spec fn lower_char(c: char) -> char {
    if 65 <= c as u32 && c as u32 <= 90 {
        (((c as u32) + 32) as u8) as char
    } else {
        c
    }
}

pub fn lower_char_exec(c: char) -> (r: char)
    ensures
        r == lower_char(c),
{
    let u = c as u32;
    if 65 <= u && u <= 90 {
        ((u + 32) as u8) as char
    } else {
        c
    }
}

/// Printable ASCII other than space.
pub open spec fn is_graphic(c: char) -> bool {
    33 <= c as u32 && c as u32 <= 126
}

pub fn is_graphic_exec(c: char) -> (r: bool)
    ensures
        r == is_graphic(c),
{
    let u = c as u32;
    33 <= u && u <= 126
}

/// Compare two strings in the order of `seq_le`.
pub fn str_le(a: &str, b: &str) -> (r: bool)
    ensures
        r == seq_le(a@, b@),
{
    let la = a.unicode_len();
    let lb = b.unicode_len();
    let mut i: usize = 0;
    proof {
        assert(a@.skip(0) =~= a@);
        assert(b@.skip(0) =~= b@);
    }
    loop
        invariant
            i <= la,
            i <= lb,
            la == a@.len(),
            lb == b@.len(),
            seq_le(a@, b@) == seq_le(a@.skip(i as int), b@.skip(i as int)),
        decreases la - i,
    {
        if i == la {
            return true;
        }
        if i == lb {
            return false;
        }
        let ca = a.get_char(i);
        let cb = b.get_char(i);
        if ca != cb {
            assert(a@.skip(i as int)[0] == ca && b@.skip(i as int)[0] == cb);
            return (ca as u32) < (cb as u32);
        }
        proof {
            assert(a@.skip(i as int).drop_first() =~= a@.skip(i + 1));
            assert(b@.skip(i as int).drop_first() =~= b@.skip(i + 1));
        }
        i = i + 1;
    }
}

/// Does `s` start with the characters of `p`?
pub fn str_starts_with(s: &str, p: &Vec<char>) -> (r: bool)
    ensures
        r == is_prefix_of(p@, s@),
{
    let n = p.len();
    if n > s.unicode_len() {
        return false;
    }
    let mut i: usize = 0;
    while i < n
        invariant
            i <= n,
            n == p@.len(),
            n <= s@.len(),
            forall|k: int| 0 <= k < i ==> s@[k] == p@[k],
        decreases n - i,
    {
        if s.get_char(i) != p[i] {
            assert(s@.take(n as int)[i as int] != p@[i as int]);
            return false;
        }
        i = i + 1;
    }
    proof {
        assert(s@.take(n as int) =~= p@);
    }
    true
}

/// A run of `n` spaces.
pub open spec fn spaces(n: nat) -> Seq<char>
    decreases n,
{
    if n == 0 {
        Seq::empty()
    } else {
        spaces((n - 1) as nat) + seq![' ']
    }
}

pub proof fn lemma_spaces_len(n: nat)
    ensures
        spaces(n).len() == n,
        forall|k: int| 0 <= k < n ==> spaces(n)[k] == ' ',
    decreases n,
{
    if n > 0 {
        lemma_spaces_len((n - 1) as nat);
    }
}

pub fn n_spaces(n: usize) -> (r: String)
    ensures
        r@ == spaces(n as nat),
{
    let mut s = String::new();
    let mut i: usize = 0;
    while i < n
        invariant
            i <= n,
            s@ == spaces(i as nat),
        decreases n - i,
    {
        s.append(" ");
        proof {
            reveal_strlit(" ");
            assert(spaces((i + 1) as nat) =~= spaces(i as nat) + " "@);
        }
        i = i + 1;
    }
    s
}

/// The decimal digit character for `d < 10`.
pub open spec fn digit_char(d: nat) -> char {
    if d == 0 { '0' }
    else if d == 1 { '1' }
    else if d == 2 { '2' }
    else if d == 3 { '3' }
    else if d == 4 { '4' }
    else if d == 5 { '5' }
    else if d == 6 { '6' }
    else if d == 7 { '7' }
    else if d == 8 { '8' }
    else { '9' }
}

/// The decimal representation of `n`, most significant digit first.
pub open spec fn dec_str(n: nat) -> Seq<char>
    decreases n,
{
    if n < 10 {
        seq![digit_char(n)]
    } else {
        dec_str(n / 10) + seq![digit_char(n % 10)]
    }
}

pub fn digit_str(d: u64) -> (r: &'static str)
    requires
        d < 10,
    ensures
        r@ =~= seq![digit_char(d as nat)],
{
    proof {
        reveal_strlit("0");
        reveal_strlit("1");
        reveal_strlit("2");
        reveal_strlit("3");
        reveal_strlit("4");
        reveal_strlit("5");
        reveal_strlit("6");
        reveal_strlit("7");
        reveal_strlit("8");
        reveal_strlit("9");
    }
    if d == 0 { "0" }
    else if d == 1 { "1" }
    else if d == 2 { "2" }
    else if d == 3 { "3" }
    else if d == 4 { "4" }
    else if d == 5 { "5" }
    else if d == 6 { "6" }
    else if d == 7 { "7" }
    else if d == 8 { "8" }
    else { "9" }
}

pub fn u64_to_dec(n: u64) -> (r: String)
    ensures
        r@ == dec_str(n as nat),
    decreases n,
{
    if n < 10 {
        let mut s = String::new();
        s.append(digit_str(n));
        proof {
            assert(s@ =~= dec_str(n as nat));
        }
        s
    } else {
        let mut s = u64_to_dec(n / 10);
        s.append(digit_str(n % 10));
        proof {
            assert(s@ =~= dec_str(n as nat));
        }
        s
    }
}

/// `s` padded with spaces on the right to at least `w` characters.
pub open spec fn pad_right(s: Seq<char>, w: nat) -> Seq<char> {
    if s.len() >= w {
        s
    } else {
        s + spaces((w - s.len()) as nat)
    }
}

/// `s` padded with spaces on the left to at least `w` characters.
pub open spec fn pad_left(s: Seq<char>, w: nat) -> Seq<char> {
    if s.len() >= w {
        s
    } else {
        spaces((w - s.len()) as nat) + s
    }
}

pub fn pad_right_exec(s: String, w: usize) -> (r: String)
    ensures
        r@ == pad_right(s@, w as nat),
{
    let n = s.as_str().unicode_len();
    if n >= w {
        s
    } else {
        let pad = n_spaces(w - n);
        s.concat(pad.as_str())
    }
}

pub fn pad_left_exec(s: String, w: usize) -> (r: String)
    ensures
        r@ == pad_left(s@, w as nat),
{
    let n = s.as_str().unicode_len();
    if n >= w {
        s
    } else {
        let pad = n_spaces(w - n);
        pad.concat(s.as_str())
    }
}

} // verus!
