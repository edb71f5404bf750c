//! Alphabets of key characters, with constant-time reverse lookup for ASCII.
use std::collections::HashSet;
use vstd::prelude::*;

use crate::error::ObfuskeyError;
use crate::text::{str_chars, string_push};

verus! {

broadcast use vstd::std_specs::hash::group_hash_axioms;

/// Whether `c` is a single-byte ASCII character.
pub open spec fn is_ascii_char(c: char) -> bool {
    (c as u32) < 128
}

/// No character occurs twice.
pub open spec fn no_duplicates(s: Seq<char>) -> bool {
    forall|i: int, j: int| 0 <= i < j < s.len() ==> s[i] != s[j]
}

/// What every alphabet satisfies: at least two characters, none repeated.
pub open spec fn valid_alphabet(s: Seq<char>) -> bool {
    s.len() >= 2 && no_duplicates(s)
}

/// The position of `c` in `s`, if it occurs there.
pub open spec fn position_of(s: Seq<char>, c: char) -> Option<int> {
    if exists|i: int| 0 <= i < s.len() && s[i] == c {
        Some(choose|i: int| 0 <= i < s.len() && s[i] == c)
    } else {
        None
    }
}

/// The message of the error for an alphabet of fewer than two characters.
pub open spec fn short_alphabet_message() -> Seq<char> {
    "Alphabet must contain at least 2 characters."@
}

/// Pre-computed alphabet with O(1) character lookups.
///
/// Stores the alphabet characters and a reverse lookup table indexed by byte
/// value. Only single-byte (ASCII) alphabets get the table; others fall back
/// to a linear search.
#[derive(Clone, Debug)]
pub struct Alphabet {
    chars: Vec<char>,
    /// Reverse lookup: byte value -> index in alphabet; 0xFF = not in alphabet.
    lookup: Vec<u8>,
    /// Whether all characters are single-byte ASCII (enables the table).
    all_ascii: bool,
}

impl View for Alphabet {
    type V = Seq<char>;

    closed spec fn view(&self) -> Seq<char> {
        self.chars@
    }
}

impl Alphabet {
    closed spec fn lookup_entry_ok(self, b: int) -> bool {
        if self.lookup@[b] == 0xFF {
            forall|i: int| 0 <= i < self.chars.len() ==> self.chars@[i] as u32 != b
        } else {
            &&& (self.lookup@[b] as int) < self.chars.len()
            &&& self.chars@[self.lookup@[b] as int] as u32 == b
        }
    }

    /// The internal consistency of an alphabet.
    pub closed spec fn wf(self) -> bool {
        &&& valid_alphabet(self.chars@)
        &&& self.all_ascii == (forall|i: int|
            0 <= i < self.chars.len() ==> is_ascii_char(#[trigger] self.chars@[i]))
        &&& self.lookup.len() == 256
        &&& self.all_ascii ==> forall|b: int| 0 <= b < 256 ==> self.lookup_entry_ok(b)
    }

    /// A well-formed alphabet has at least two characters, none repeated.
    pub proof fn lemma_wf_valid(&self)
        requires
            self.wf(),
        ensures
            valid_alphabet(self@),
    {
    }

    /// Builds an alphabet from the characters of `alphabet`.
    ///
    /// Fails with `ValueError` for fewer than two characters, then with
    /// `DuplicateError` if a character repeats.
    pub fn new(alphabet: &str) -> (r: Result<Alphabet, ObfuskeyError>)
        ensures
            alphabet@.len() < 2 ==> (r matches Err(ObfuskeyError::ValueError(m))
                && m@ == short_alphabet_message()),
            alphabet@.len() >= 2 && !no_duplicates(alphabet@) ==> r == Err::<
                Alphabet,
                ObfuskeyError,
            >(ObfuskeyError::DuplicateError),
            valid_alphabet(alphabet@) ==> (r matches Ok(a) && a.wf() && a@ == alphabet@),
    {
        let chars = str_chars(alphabet);
        let n = chars.len();
        if n < 2 {
            return Err(ObfuskeyError::ValueError(short_alphabet_message_string()));
        }
        let mut all_ascii = true;
        let mut k: usize = 0;
        while k < n
            invariant
                n == chars.len(),
                n >= 2,
                chars@ == alphabet@,
                k <= n,
                all_ascii == (forall|i: int| 0 <= i < k ==> is_ascii_char(#[trigger] chars@[i])),
            decreases n - k,
        {
            if (chars[k] as u32) >= 128 {
                all_ascii = false;
            }
            k = k + 1;
        }
        // Check for duplicates
        let mut seen: Vec<bool> = vec![false; 256];
        let mut seen_set: HashSet<u32> = HashSet::new();
        let mut k: usize = 0;
        while k < n
            invariant
                n == chars.len(),
                n >= 2,
                chars@ == alphabet@,
                k <= n,
                seen.len() == 256,
                all_ascii == (forall|i: int| 0 <= i < n ==> is_ascii_char(#[trigger] chars@[i])),
                forall|i: int, j: int| 0 <= i < j < k ==> chars@[i] != chars@[j],
                all_ascii ==> forall|b: int|
                    0 <= b < 256 ==> (#[trigger] seen@[b] <==> exists|i: int|
                        0 <= i < k && chars@[i] as u32 == b),
                !all_ascii ==> forall|x: u32|
                    #[trigger] seen_set@.contains(x) <==> exists|i: int|
                        0 <= i < k && chars@[i] as u32 == x,
            decreases n - k,
        {
            let c = chars[k];
            if all_ascii {
                let b = (c as u32) as usize;
                assert(is_ascii_char(chars@[k as int]));
                if seen[b] {
                    proof {
                        let i = choose|i: int| 0 <= i < k && chars@[i] as u32 == b;
                        lemma_char_code_injective(chars@[i], chars@[k as int]);
                    }
                    return Err(ObfuskeyError::DuplicateError);
                }
                seen.set(b, true);
            } else {
                let fresh = seen_set.insert(c as u32);
                if !fresh {
                    proof {
                        let i = choose|i: int| 0 <= i < k && chars@[i] as u32 == c as u32;
                        lemma_char_code_injective(chars@[i], chars@[k as int]);
                    }
                    return Err(ObfuskeyError::DuplicateError);
                }
            }
            k = k + 1;
        }
        // Build reverse lookup
        let mut lookup: Vec<u8> = vec![0xFFu8; 256];
        proof {
            if all_ascii {
                lemma_ascii_distinct_count(chars@);
            }
        }
        if all_ascii && n <= 256 {
            let mut i: usize = 0;
            while i < n
                invariant
                    n == chars.len(),
                    n <= 128,
                    i <= n,
                    lookup.len() == 256,
                    no_duplicates(chars@),
                    forall|j: int| 0 <= j < n ==> is_ascii_char(#[trigger] chars@[j]),
                    forall|b: int|
                        0 <= b < 256 ==> if #[trigger] lookup@[b] == 0xFF {
                            forall|j: int| 0 <= j < i ==> chars@[j] as u32 != b
                        } else {
                            (lookup@[b] as int) < i && chars@[lookup@[b] as int] as u32 == b
                        },
                decreases n - i,
            {
                let b = (chars[i] as u32) as usize;
                assert(is_ascii_char(chars@[i as int]));
                lookup.set(b, i as u8);
                i = i + 1;
            }
        }
        let a = Alphabet { chars, lookup, all_ascii };
        proof {
            assert(a.chars@ == alphabet@);
            assert forall|b: int| 0 <= b < 256 && a.all_ascii implies a.lookup_entry_ok(b) by {}
        }
        Ok(a)
    }

    /// The number of characters.
    pub fn base(&self) -> (r: usize)
        requires
            self.wf(),
        ensures
            r == self@.len(),
            r >= 2,
    {
        self.chars.len()
    }

    /// The character at `index`.
    pub fn char_at(&self, index: usize) -> (r: char)
        requires
            index < self@.len(),
        ensures
            r == self@[index as int],
    {
        self.chars[index]
    }

    /// The first character, which stands for the digit zero.
    pub fn first_char(&self) -> (r: char)
        requires
            self.wf(),
        ensures
            r == self@[0],
    {
        self.chars[0]
    }

    /// The index of a character, or `None` if it is not in the alphabet.
    pub fn index_of(&self, c: char) -> (r: Option<usize>)
        requires
            self.wf(),
        ensures
            match r {
                Some(i) => position_of(self@, c) == Some(i as int) && i < self@.len() && self@[i as int]
                    == c,
                None => position_of(self@, c) is None && !self@.contains(c),
            },
    {
        if self.all_ascii && (c as u32) < 128 {
            let idx = self.lookup[(c as u32) as usize];
            if idx == 0xFF {
                proof {
                    assert(self.lookup_entry_ok(c as u32 as int));
                    assert(!exists|i: int| 0 <= i < self.chars.len() && self.chars@[i] == c);
                }
                None
            } else {
                proof {
                    assert(self.lookup_entry_ok(c as u32 as int));
                    lemma_char_code_injective(self.chars@[idx as int], c);
                    lemma_position_unique(self.chars@, c, idx as int);
                }
                Some(idx as usize)
            }
        } else {
            let n = self.chars.len();
            let mut i: usize = 0;
            while i < n
                invariant
                    self.wf(),
                    n == self.chars.len(),
                    i <= n,
                    forall|j: int| 0 <= j < i ==> self.chars@[j] != c,
                decreases n - i,
            {
                if self.chars[i] == c {
                    proof {
                        lemma_position_unique(self.chars@, c, i as int);
                    }
                    return Some(i);
                }
                i = i + 1;
            }
            None
        }
    }

    /// The characters, in order.
    pub fn chars(&self) -> (r: &[char])
        ensures
            r@ == self@,
    {
        self.chars.as_slice()
    }

    /// The characters as one string.
    pub fn as_str(&self) -> (r: String)
        ensures
            r@ == self@,
    {
        let mut s = String::new();
        let n = self.chars.len();
        let mut i: usize = 0;
        while i < n
            invariant
                n == self.chars.len(),
                i <= n,
                s@ == self.chars@.subrange(0, i as int),
            decreases n - i,
        {
            string_push(&mut s, self.chars[i]);
            proof {
                assert(self.chars@.subrange(0, i + 1) =~= self.chars@.subrange(0, i as int).push(
                    self.chars@[i as int],
                ));
            }
            i = i + 1;
        }
        proof {
            assert(self.chars@.subrange(0, n as int) =~= self.chars@);
        }
        s
    }
}

/// The number of bytes of `c` in UTF-8.
pub open spec fn utf8_width(c: char) -> nat {
    let v = c as u32;
    if v < 0x80 {
        1
    } else if v < 0x800 {
        2
    } else if v < 0x10000 {
        3
    } else {
        4
    }
}

/// The number of bytes of `s` in UTF-8.
pub open spec fn utf8_len(s: Seq<char>) -> nat
    decreases s.len(),
{
    if s.len() == 0 {
        0
    } else {
        utf8_len(s.drop_last()) + utf8_width(s.last())
    }
}

/// Byte `b` of the UTF-8 text of `s` starts a character (or ends the text).
pub open spec fn is_char_boundary(s: Seq<char>, b: nat) -> bool {
    exists|k: int| 0 <= k <= s.len() && #[trigger] utf8_len(s.take(k)) == b
}

/// The number of characters in the first `b` bytes of `s`.
pub open spec fn chars_before(s: Seq<char>, b: nat) -> int {
    choose|k: int| 0 <= k <= s.len() && #[trigger] utf8_len(s.take(k)) == b
}

/// The text of `s` can be shortened for display: when it has more than 20
/// bytes, byte 10 and the fifth byte from the end start characters.
pub open spec fn quotable(s: Seq<char>) -> bool {
    utf8_len(s) > 20 ==> is_char_boundary(s, 10) && is_char_boundary(s, (utf8_len(s) - 5) as nat)
}

/// The characters in quotes; a text of more than 20 bytes is shortened to
/// its first ten bytes, `...` and its last five bytes.
pub open spec fn quoted_alphabet(s: Seq<char>) -> Seq<char> {
    if utf8_len(s) > 20 {
        "'"@ + s.take(chars_before(s, 10)) + "..."@ + s.skip(
            chars_before(s, (utf8_len(s) - 5) as nat),
        ) + "'"@
    } else {
        "'"@ + s + "'"@
    }
}

/// One more character adds its width.
proof fn lemma_utf8_len_step(s: Seq<char>, k: int)
    requires
        0 <= k < s.len(),
    ensures
        utf8_len(s.take(k + 1)) == utf8_len(s.take(k)) + utf8_width(s[k]),
{
    assert(s.take(k + 1).drop_last() =~= s.take(k));
}

/// Longer prefixes have more bytes.
proof fn lemma_utf8_len_increasing(s: Seq<char>, j: int, k: int)
    requires
        0 <= j < k <= s.len(),
    ensures
        utf8_len(s.take(j)) < utf8_len(s.take(k)),
    decreases k - j,
{
    lemma_utf8_len_step(s, k - 1);
    if j < k - 1 {
        lemma_utf8_len_increasing(s, j, k - 1);
    }
}

/// The prefix with `b` bytes, where there is one, is the one chosen.
proof fn lemma_chars_before(s: Seq<char>, b: nat, k: int)
    requires
        0 <= k <= s.len(),
        utf8_len(s.take(k)) == b,
    ensures
        chars_before(s, b) == k,
{
    let c = chars_before(s, b);
    assert(0 <= c <= s.len() && utf8_len(s.take(c)) == b);
    if c < k {
        lemma_utf8_len_increasing(s, c, k);
    } else if k < c {
        lemma_utf8_len_increasing(s, k, c);
    }
}

/// The UTF-8 width of a character.
fn char_width(c: char) -> (r: u128)
    ensures
        r == utf8_width(c),
{
    let v = c as u32;
    if v < 0x80 {
        1
    } else if v < 0x800 {
        2
    } else if v < 0x10000 {
        3
    } else {
        4
    }
}

/// Appends `chars[from..to]` to `s`.
fn push_chars(s: &mut String, chars: &Vec<char>, from: usize, to: usize)
    requires
        from <= to <= chars.len(),
    ensures
        final(s)@ == old(s)@ + chars@.subrange(from as int, to as int),
{
    let ghost start = s@;
    let mut i: usize = from;
    while i < to
        invariant
            from <= i <= to <= chars.len(),
            s@ == start + chars@.subrange(from as int, i as int),
        decreases to - i,
    {
        string_push(s, chars[i]);
        proof {
            assert(chars@.subrange(from as int, i + 1) =~= chars@.subrange(from as int, i as int).push(
                chars@[i as int],
            ));
        }
        i = i + 1;
    }
}

impl Alphabet {
    /// The characters in quotes, shortened when their text has more than 20
    /// bytes.
    pub fn quoted(&self) -> (r: String)
        requires
            quotable(self@),
        ensures
            r@ == quoted_alphabet(self@),
    {
        let n = self.chars.len();
        // the length of the text in bytes
        let mut total: u128 = 0;
        let mut i: usize = 0;
        while i < n
            invariant
                n == self.chars@.len(),
                i <= n,
                total == utf8_len(self@.take(i as int)),
                total <= 4 * i,
            decreases n - i,
        {
            proof {
                lemma_utf8_len_step(self@, i as int);
            }
            total = total + char_width(self.chars[i]);
            i = i + 1;
        }
        proof {
            assert(self@.take(n as int) =~= self@);
        }
        let mut s = String::from_str("'");
        if total > 20 {
            // the characters before byte 10 and before the fifth byte from the end
            let tail = total - 5;
            let mut head_at: usize = 0;
            let mut tail_at: usize = 0;
            let mut found_head = false;
            let mut found_tail = false;
            let mut bytes: u128 = 0;
            let mut k: usize = 0;
            loop
                invariant
                    n == self.chars@.len(),
                    k <= n,
                    total == utf8_len(self@),
                    tail == total - 5,
                    bytes == utf8_len(self@.take(k as int)),
                    bytes <= total,
                    found_head ==> head_at <= n && utf8_len(self@.take(head_at as int)) == 10,
                    !found_head ==> forall|j: int| 0 <= j < k ==> #[trigger] utf8_len(self@.take(j)) != 10,
                    found_tail ==> tail_at <= n && utf8_len(self@.take(tail_at as int)) == tail,
                    !found_tail ==> forall|j: int| 0 <= j < k ==> #[trigger] utf8_len(self@.take(j)) != tail,
                ensures
                    found_head ==> head_at <= n && utf8_len(self@.take(head_at as int)) == 10,
                    !found_head ==> forall|j: int| 0 <= j <= n ==> #[trigger] utf8_len(self@.take(j)) != 10,
                    found_tail ==> tail_at <= n && utf8_len(self@.take(tail_at as int)) == tail,
                    !found_tail ==> forall|j: int| 0 <= j <= n ==> #[trigger] utf8_len(self@.take(j)) != tail,
                decreases n - k,
            {
                if bytes == 10 {
                    head_at = k;
                    found_head = true;
                }
                if bytes == tail {
                    tail_at = k;
                    found_tail = true;
                }
                if k == n {
                    break;
                }
                proof {
                    lemma_utf8_len_step(self@, k as int);
                    if k + 1 < n {
                        lemma_utf8_len_increasing(self@, k + 1, n as int);
                    }
                    assert(self@.take(n as int) =~= self@);
                }
                bytes = bytes + char_width(self.chars[k]);
                k = k + 1;
            }
            proof {
                assert(self@.take(n as int) =~= self@);
                if !found_head {
                    let j = choose|j: int| 0 <= j <= self@.len() && #[trigger] utf8_len(self@.take(j)) == 10;
                    assert(utf8_len(self@.take(j)) == 10);
                }
                if !found_tail {
                    let j = choose|j: int| 0 <= j <= self@.len() && #[trigger] utf8_len(self@.take(j)) == tail;
                    assert(utf8_len(self@.take(j)) == tail);
                }
                lemma_chars_before(self@, 10, head_at as int);
                lemma_chars_before(self@, tail as nat, tail_at as int);
            }
            push_chars(&mut s, &self.chars, 0, head_at);
            s.append("...");
            push_chars(&mut s, &self.chars, tail_at, n);
            proof {
                assert(self@.subrange(0, head_at as int) =~= self@.take(head_at as int));
                assert(self@.subrange(tail_at as int, n as int) =~= self@.skip(tail_at as int));
            }
        } else {
            push_chars(&mut s, &self.chars, 0, n);
            proof {
                assert(self@.subrange(0, n as int) =~= self@);
            }
        }
        s.append("'");
        s
    }

    /// A description for debugging: `Alphabet('...')`.
    pub fn describe(&self) -> (r: String)
        requires
            quotable(self@),
        ensures
            r@ == "Alphabet("@ + quoted_alphabet(self@) + ")"@,
    {
        let mut s = String::from_str("Alphabet(");
        s.append(self.quoted().as_str());
        s.append(")");
        s
    }
}

fn short_alphabet_message_string() -> (r: String)
    ensures
        r@ == short_alphabet_message(),
{
    String::from_str("Alphabet must contain at least 2 characters.")
}

/// Characters with the same code are the same character.
pub proof fn lemma_char_code_injective(a: char, b: char)
    requires
        a as u32 == b as u32,
    ensures
        a == b,
{
    let u = a as u32;
    assert((u as char) == a);
    assert((u as char) == b);
}

/// In a sequence without duplicates, the position found is the only one.
pub proof fn lemma_position_unique(s: Seq<char>, c: char, i: int)
    requires
        no_duplicates(s),
        0 <= i < s.len(),
        s[i] == c,
    ensures
        position_of(s, c) == Some(i),
{
    let j = choose|j: int| 0 <= j < s.len() && s[j] == c;
    assert(j == i);
}

/// Distinct ASCII characters number at most 128.
proof fn lemma_ascii_distinct_count(s: Seq<char>)
    requires
        no_duplicates(s),
        forall|j: int| 0 <= j < s.len() ==> is_ascii_char(#[trigger] s[j]),
    ensures
        s.len() <= 128,
{
    let codes = Set::new(|x: u32| exists|j: int| 0 <= j < s.len() && s[j] as u32 == x);
    let f = |j: int| s[j] as u32;
    let dom = Set::new(|j: int| 0 <= j < s.len());
    let full = Set::new(|x: u32| x < 128);
    vstd::set_lib::lemma_int_range(0, s.len() as int);
    assert(dom =~= vstd::set_lib::set_int_range(0, s.len() as int));
    assert(vstd::relations::injective_on(f, dom)) by {
        assert forall|a: int, b: int| dom.contains(a) && dom.contains(b) && f(a) == f(b) implies a
            == b by {
            lemma_char_code_injective(s[a], s[b]);
            if a < b {
                assert(s[a] != s[b]);
            } else if b < a {
                assert(s[b] != s[a]);
            }
        }
    }
    assert(codes =~= dom.map(f)) by {
        assert forall|x: u32| codes.contains(x) implies dom.map(f).contains(x) by {
            let j = choose|j: int| 0 <= j < s.len() && s[j] as u32 == x;
            assert(dom.contains(j) && f(j) == x);
        }
        assert forall|x: u32| dom.map(f).contains(x) implies codes.contains(x) by {
            let j = choose|j: int| dom.contains(j) && f(j) == x;
            assert(0 <= j < s.len() && s[j] as u32 == x);
        }
    }
    vstd::set_lib::lemma_map_size(dom, codes, f);
    assert(codes.subset_of(full));
    assert(full =~= Set::new(|x: u32| 0 <= x < 128));
    lemma_u32_range_len();
    vstd::set_lib::lemma_len_subset(codes, full);
}

proof fn lemma_u32_range_len()
    ensures
        Set::new(|x: u32| x < 128).finite(),
        Set::new(|x: u32| x < 128).len() == 128,
{
    let r = vstd::set_lib::set_int_range(0, 128);
    vstd::set_lib::lemma_int_range(0, 128);
    let g = |i: int| i as u32;
    let s = Set::new(|x: u32| x < 128);
    assert(s =~= r.map(g)) by {
        assert forall|x: u32| s.contains(x) implies r.map(g).contains(x) by {
            assert(r.contains(x as int));
            assert(g(x as int) == x);
        }
    }
    assert(vstd::relations::injective_on(g, r)) by {
        assert forall|a: int, b: int| r.contains(a) && r.contains(b) && g(a) == g(b) implies a
            == b by {}
    }
    vstd::set_lib::lemma_map_size(r, s, g);
}

} // verus!
