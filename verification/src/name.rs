//! Raw option names and their two derived forms.
//!
//! A raw name is a string of 1 to 32 bytes drawn from `a-z`, `0-9`, `_`, `-`.
//! From a valid raw name two forms are derived:
//!  * the *stable* form: the raw bytes with every `-` replaced by `_`, used as
//!    a durable identifier;
//!  * the *display* form: the raw bytes split on `_`/`-`, the first byte of
//!    each word upper-cased, the words concatenated, used as a label.
//!
//! Name identity is display-form identity: two names compare equal exactly
//! when their display forms agree.

use vstd::prelude::*;
use vstd::string::StringSliceAdditionalSpecFns;

verus! {

/// Longest raw name the schema format accepts.
pub const MAX_LEN: usize = 32;

/// ASCII `a`.
pub const LOWER_A: u8 = 97;

/// ASCII `z`.
pub const LOWER_Z: u8 = 122;

/// ASCII `A`.
pub const UPPER_A: u8 = 65;

/// ASCII `0`.
pub const DIGIT_0: u8 = 48;

/// ASCII `9`.
pub const DIGIT_9: u8 = 57;

/// ASCII `_`.
pub const UNDERSCORE: u8 = 95;

/// ASCII `-`.
pub const HYPHEN: u8 = 45;

/// Bytes allowed in a raw name: ASCII lower-case letters, digits, `_`, `-`.
pub open spec fn valid_byte(b: u8) -> bool {
    (LOWER_A <= b && b <= LOWER_Z) || (DIGIT_0 <= b && b <= DIGIT_9) || b == UNDERSCORE || b == HYPHEN
}

/// A raw name is valid when it has 1 to 32 bytes, all from the allowed set.
pub open spec fn valid_raw(s: Seq<u8>) -> bool {
    &&& 1 <= s.len()
    &&& s.len() <= MAX_LEN
    &&& forall|i: int| 0 <= i < s.len() ==> valid_byte(#[trigger] s[i])
}

/// One byte of the stable form: `-` becomes `_`, every other byte is kept.
pub open spec fn stable_byte(b: u8) -> u8 {
    if b == HYPHEN {
        UNDERSCORE
    } else {
        b
    }
}

/// The stable form of a raw name.
pub open spec fn stable_of(s: Seq<u8>) -> Seq<u8> {
    s.map_values(|b: u8| stable_byte(b))
}

/// Upper-cases an ASCII lower-case letter and leaves any other byte alone.
pub open spec fn upper_byte(b: u8) -> u8 {
    if LOWER_A <= b && b <= LOWER_Z {
        (b - LOWER_A + UPPER_A) as u8
    } else {
        b
    }
}

/// The word separators of the raw form.
pub open spec fn is_sep(b: u8) -> bool {
    b == UNDERSCORE || b == HYPHEN
}

/// The display form of the suffix `s`, where `start` says whether the next
/// non-separator byte begins a word.
pub open spec fn display_rec(s: Seq<u8>, start: bool) -> Seq<u8>
    decreases s.len(),
{
    if s.len() == 0 {
        Seq::empty()
    } else if is_sep(s[0]) {
        display_rec(s.skip(1), true)
    } else if start {
        seq![upper_byte(s[0])] + display_rec(s.skip(1), false)
    } else {
        seq![s[0]] + display_rec(s.skip(1), false)
    }
}

/// The display form of a raw name.
pub open spec fn display_of(s: Seq<u8>) -> Seq<u8> {
    display_rec(s, true)
}

/// Fixed-capacity byte buffer: a stack array of `MAX_LEN` bytes and a length.
/// Deriving a form from a valid raw name never needs more than `MAX_LEN`
/// bytes, so no heap allocation is needed while building one.
#[derive(Clone, Copy, Debug)]
pub struct Buffer {
    buf: [u8; MAX_LEN],
    len: usize,
}

impl View for Buffer {
    type V = Seq<u8>;

    closed spec fn view(&self) -> Seq<u8> {
        self.buf@.take(self.len as int)
    }
}

impl Buffer {
    #[verifier::type_invariant]
    closed spec fn inv(self) -> bool {
        self.len <= MAX_LEN
    }

    /// An empty buffer.
    pub fn new() -> (r: Buffer)
        ensures
            r@ == Seq::<u8>::empty(),
    {
        let r = Buffer { buf: [0u8; MAX_LEN], len: 0 };
        proof {
            assert(r@ =~= Seq::<u8>::empty());
        }
        r
    }

    /// Appends one byte.
    pub fn push(&mut self, b: u8)
        requires
            old(self)@.len() < MAX_LEN,
        ensures
            final(self)@ == old(self)@.push(b),
    {
        proof {
            use_type_invariant(&*self);
        }
        self.buf[self.len] = b;
        self.len = self.len + 1;
        proof {
            assert(self@ =~= old(self)@.push(b));
        }
    }

    /// Appends a whole byte slice.
    pub fn extend(&mut self, bytes: &[u8])
        requires
            old(self)@.len() + bytes@.len() <= MAX_LEN,
        ensures
            final(self)@ == old(self)@ + bytes@,
    {
        let n = bytes.len();
        let mut i: usize = 0;
        while i < n
            invariant
                i <= n,
                n == bytes@.len(),
                old(self)@.len() + bytes@.len() <= MAX_LEN,
                self@ == old(self)@ + bytes@.take(i as int),
            decreases n - i,
        {
            self.push(bytes[i]);
            proof {
                assert(old(self)@ + bytes@.take(i as int + 1) =~= (old(self)@ + bytes@.take(
                    i as int,
                )).push(bytes@[i as int]));
            }
            i = i + 1;
        }
        proof {
            assert(bytes@.take(n as int) =~= bytes@);
        }
    }

    /// Empties the buffer.
    pub fn clear(&mut self)
        ensures
            final(self)@ == Seq::<u8>::empty(),
    {
        proof {
            use_type_invariant(&*self);
        }
        self.len = 0;
        proof {
            assert(self@ =~= Seq::<u8>::empty());
        }
    }

    /// Copies the contents out into a heap vector.
    pub fn to_vec(&self) -> (r: Vec<u8>)
        ensures
            r@ == self@,
    {
        proof {
            use_type_invariant(self);
        }
        let mut r: Vec<u8> = Vec::new();
        let mut i: usize = 0;
        while i < self.len
            invariant
                i <= self.len,
                self.len <= MAX_LEN,
                r@ == self@.take(i as int),
            decreases self.len - i,
        {
            r.push(self.buf[i]);
            proof {
                assert(self@.take(i as int + 1) =~= self@.take(i as int).push(self@[i as int]));
            }
            i = i + 1;
        }
        proof {
            assert(self@.take(self.len as int) =~= self@);
        }
        r
    }
}

/// Compares the contents of two buffers.
fn buffer_eq(a: &Buffer, b: &Buffer) -> (r: bool)
    ensures
        r == (a@ == b@),
{
    proof {
        use_type_invariant(a);
        use_type_invariant(b);
    }
    if a.len != b.len {
        proof {
            assert(a@.len() != b@.len());
        }
        return false;
    }
    let mut i: usize = 0;
    while i < a.len
        invariant
            i <= a.len,
            a.len == b.len,
            a.len <= MAX_LEN,
            b.len <= MAX_LEN,
            forall|j: int| 0 <= j < i ==> a@[j] == b@[j],
        decreases a.len - i,
    {
        if a.buf[i] != b.buf[i] {
            proof {
                assert(a@[i as int] != b@[i as int]);
            }
            return false;
        }
        i = i + 1;
    }
    proof {
        assert(a@ =~= b@);
    }
    true
}

/// The two derived forms of a name, as mathematical byte sequences.
pub struct NameForms {
    pub stable: Seq<u8>,
    pub display: Seq<u8>,
}

/// The two derived forms of a valid raw name, together.
pub open spec fn forms_of(raw: Seq<u8>) -> NameForms {
    NameForms { stable: stable_of(raw), display: display_of(raw) }
}

/// A validated name, owning its two derived forms.
#[derive(Clone, Copy, Debug)]
pub struct Name {
    stable: Buffer,
    display: Buffer,
}

impl View for Name {
    type V = NameForms;

    closed spec fn view(&self) -> NameForms {
        NameForms { stable: self.stable@, display: self.display@ }
    }
}

/// Name identity is display-form identity.
pub open spec fn name_eq(a: Name, b: Name) -> bool {
    a@.display == b@.display
}

impl PartialEq for Name {
    fn eq(&self, other: &Name) -> bool {
        buffer_eq(&self.display, &other.display)
    }
}

impl vstd::std_specs::cmp::PartialEqSpecImpl for Name {
    open spec fn obeys_eq_spec() -> bool {
        true
    }

    open spec fn eq_spec(&self, other: &Name) -> bool {
        name_eq(*self, *other)
    }
}

/// Checks the raw-name constraints and hands back the bytes when they hold.
pub fn validate(s: &str) -> (r: Option<&[u8]>)
    ensures
        match r {
            Some(bytes) => bytes@ == s.spec_bytes() && valid_raw(bytes@),
            None => !valid_raw(s.spec_bytes()),
        },
{
    let bytes = s.as_bytes();
    if bytes.len() < 1 || bytes.len() > MAX_LEN {
        return None;
    }
    let n = bytes.len();
    let mut i: usize = 0;
    while i < n
        invariant
            i <= n,
            n == bytes@.len(),
            bytes@ == s.spec_bytes(),
            1 <= n <= MAX_LEN,
            forall|j: int| 0 <= j < i ==> valid_byte(#[trigger] bytes@[j]),
        decreases n - i,
    {
        let b = bytes[i];
        if !((LOWER_A <= b && b <= LOWER_Z) || (DIGIT_0 <= b && b <= DIGIT_9) || b == UNDERSCORE || b == HYPHEN) {
            return None;
        }
        i = i + 1;
    }
    Some(bytes)
}

/// Upper-cases an ASCII lower-case letter and leaves any other byte alone.
pub fn to_upper(b: u8) -> (r: u8)
    ensures
        r == upper_byte(b),
{
    if LOWER_A <= b && b <= LOWER_Z {
        b - LOWER_A + UPPER_A
    } else {
        b
    }
}

/// The display form never grows beyond its input.
proof fn lemma_display_rec_len(s: Seq<u8>, start: bool)
    ensures
        display_rec(s, start).len() <= s.len(),
    decreases s.len(),
{
    if s.len() > 0 {
        lemma_display_rec_len(s.skip(1), true);
        lemma_display_rec_len(s.skip(1), false);
    }
}

impl Name {
    /// Validates a raw name and derives its stable and display forms.
    /// Fails exactly when the raw-name constraints are broken.
    pub fn new(raw: &str) -> (r: Option<Name>)
        ensures
            match r {
                Some(n) => {
                    &&& valid_raw(raw.spec_bytes())
                    &&& n@.stable == stable_of(raw.spec_bytes())
                    &&& n@.display == display_of(raw.spec_bytes())
                },
                None => !valid_raw(raw.spec_bytes()),
            },
    {
        let bytes = match validate(raw) {
            Some(bytes) => bytes,
            None => {
                return None;
            },
        };
        let n = bytes.len();

        let mut stable = Buffer::new();
        let mut i: usize = 0;
        while i < n
            invariant
                i <= n,
                n == bytes@.len(),
                valid_raw(bytes@),
                stable@ == stable_of(bytes@).take(i as int),
            decreases n - i,
        {
            let b = bytes[i];
            if b == HYPHEN {
                stable.push(UNDERSCORE);
            } else {
                stable.push(b);
            }
            proof {
                assert(stable_of(bytes@).take(i as int + 1) =~= stable_of(bytes@).take(
                    i as int,
                ).push(stable_byte(bytes@[i as int])));
            }
            i = i + 1;
        }
        proof {
            assert(stable_of(bytes@).take(n as int) =~= stable_of(bytes@));
        }

        let mut display = Buffer::new();
        let mut start = true;
        proof {
            assert(bytes@.skip(0) =~= bytes@);
        }
        let mut i: usize = 0;
        while i < n
            invariant
                i <= n,
                n == bytes@.len(),
                valid_raw(bytes@),
                display@.len() <= i,
                display@ + display_rec(bytes@.skip(i as int), start) == display_of(bytes@),
            decreases n - i,
        {
            let b = bytes[i];
            proof {
                assert(bytes@.skip(i as int)[0] == bytes@[i as int]);
                assert(bytes@.skip(i as int).skip(1) =~= bytes@.skip(i as int + 1));
                lemma_display_rec_len(bytes@.skip(i as int), start);
            }
            if b == UNDERSCORE || b == HYPHEN {
                start = true;
            } else {
                if start {
                    display.push(to_upper(b));
                } else {
                    display.push(b);
                }
                start = false;
            }
            i = i + 1;
        }
        proof {
            assert(bytes@.skip(n as int) =~= Seq::<u8>::empty());
            assert(display@ + Seq::<u8>::empty() =~= display@);
        }

        Some(Name { stable, display })
    }

    /// Whether the stable form equals the given bytes.
    pub fn stable_is(&self, bytes: &[u8]) -> (r: bool)
        ensures
            r == (self@.stable == bytes@),
    {
        proof {
            use_type_invariant(&self.stable);
        }
        if self.stable.len != bytes.len() {
            proof {
                assert(self@.stable.len() != bytes@.len());
            }
            return false;
        }
        let n = bytes.len();
        let mut i: usize = 0;
        while i < n
            invariant
                i <= n,
                n == bytes@.len(),
                self.stable.len == n,
                self.stable.len <= MAX_LEN,
                forall|j: int| 0 <= j < i ==> self@.stable[j] == bytes@[j],
            decreases n - i,
        {
            if self.stable.buf[i] != bytes[i] {
                proof {
                    assert(self@.stable[i as int] != bytes@[i as int]);
                }
                return false;
            }
            i = i + 1;
        }
        proof {
            assert(self@.stable =~= bytes@);
        }
        true
    }

    /// The stable form, as owned bytes.
    pub fn stable(&self) -> (r: Vec<u8>)
        ensures
            r@ == self@.stable,
    {
        self.stable.to_vec()
    }

    /// The display form, as owned bytes.
    pub fn display(&self) -> (r: Vec<u8>)
        ensures
            r@ == self@.display,
    {
        self.display.to_vec()
    }
}

/// Every valid raw name normalizes, and its stable form keeps the raw length,
/// contains no `-`, and stays within the raw-name byte set.
pub proof fn lemma_stable_form(s: Seq<u8>)
    requires
        valid_raw(s),
    ensures
        stable_of(s).len() == s.len(),
        forall|i: int|
            0 <= i < stable_of(s).len() ==> #[trigger] stable_of(s)[i] != HYPHEN && valid_byte(
                stable_of(s)[i],
            ),
{
}

/// A suffix holding any non-separator byte has a non-empty display form.
proof fn lemma_display_rec_nonempty(s: Seq<u8>, start: bool)
    requires
        exists|i: int| 0 <= i < s.len() && !is_sep(#[trigger] s[i]),
    ensures
        display_rec(s, start).len() > 0,
    decreases s.len(),
{
    let i = choose|i: int| 0 <= i < s.len() && !is_sep(#[trigger] s[i]);
    if is_sep(s[0]) {
        assert(0 <= i - 1 < s.skip(1).len() && !is_sep(s.skip(1)[i - 1]));
        lemma_display_rec_nonempty(s.skip(1), true);
    }
}

/// The display form of a raw name with at least one byte that is not a
/// separator is non-empty. (The display form of a name of separators
/// alone, such as `-`, is empty.)
pub proof fn lemma_display_nonempty(s: Seq<u8>)
    requires
        valid_raw(s),
        exists|i: int| 0 <= i < s.len() && !is_sep(#[trigger] s[i]),
    ensures
        display_of(s).len() > 0,
{
    lemma_display_rec_nonempty(s, true);
}

/// Raw names that share a display form denote the same name: any two `Name`
/// values derived from them compare equal. For example, `play-now` and
/// `play_now` both display as `PlayNow` and so are the same name.
pub proof fn lemma_display_identity(n1: Name, n2: Name, s1: Seq<u8>, s2: Seq<u8>)
    requires
        n1@.display == display_of(s1),
        n2@.display == display_of(s2),
        display_of(s1) == display_of(s2),
    ensures
        name_eq(n1, n2),
{
}

} // verus!
