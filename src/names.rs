//! File names in a tree's directory: a table or log index written as twenty
//! zero-padded decimal digits, a dot, and an extension naming the file's
//! role.

use vstd::prelude::*;

verus! {

/// The number of digits an index is padded to: enough for any `u64`.
pub const INDEX_PADDING: usize = 20;

/// The role of a file in a tree's directory.
#[derive(Debug, Clone, Copy, PartialEq, Eq, Structural)]
pub enum FileKind {
    /// The write-ahead log of a memtable.
    Memtable,
    /// The entries of a table.
    Data,
    /// The offsets of a table's entries.
    Index,
    /// The entries of a compaction's output, before it is installed.
    CompactData,
    /// The offsets of a compaction's output, before it is installed.
    CompactIndex,
    /// The intent record of a compaction.
    CompactAction,
}

/// The extension of a file of the given kind.
pub open spec fn ext_of(kind: FileKind) -> Seq<u8> {
    match kind {
        FileKind::Memtable => seq![109u8, 101, 109, 116, 97, 98, 108, 101],
        FileKind::Data => seq![100u8, 97, 116, 97],
        FileKind::Index => seq![105u8, 110, 100, 101, 120],
        FileKind::CompactData => seq![99u8, 111, 109, 112, 97, 99, 116, 95, 100, 97, 116, 97],
        FileKind::CompactIndex => seq![99u8, 111, 109, 112, 97, 99, 116, 95, 105, 110, 100, 101, 120],
        FileKind::CompactAction => seq![99u8, 111, 109, 112, 97, 99, 116, 95, 97, 99, 116, 105, 111, 110],
    }
}

impl FileKind {
    /// The extension, as bytes.
    pub fn ext(&self) -> (r: Vec<u8>)
        ensures
            r@ == ext_of(*self),
    {
        let r = match self {
            FileKind::Memtable => vec![109u8, 101u8, 109u8, 116u8, 97u8, 98u8, 108u8, 101u8],
            FileKind::Data => vec![100u8, 97u8, 116u8, 97u8],
            FileKind::Index => vec![105u8, 110u8, 100u8, 101u8, 120u8],
            FileKind::CompactData => vec![99u8, 111u8, 109u8, 112u8, 97u8, 99u8, 116u8, 95u8, 100u8, 97u8, 116u8, 97u8],
            FileKind::CompactIndex => vec![99u8, 111u8, 109u8, 112u8, 97u8, 99u8, 116u8, 95u8, 105u8, 110u8, 100u8, 101u8, 120u8],
            FileKind::CompactAction => vec![99u8, 111u8, 109u8, 112u8, 97u8, 99u8, 116u8, 95u8, 97u8, 99u8, 116u8, 105u8, 111u8, 110u8],
        };
        assert(r@ =~= ext_of(*self));
        r
    }
}

pub open spec fn pow10(k: nat) -> nat
    decreases k,
{
    if k == 0 {
        1
    } else {
        10 * pow10((k - 1) as nat)
    }
}

/// `n` written in `width` decimal digits, the most significant first,
/// padded with zeros.
pub open spec fn padded_decimal(n: nat, width: nat) -> Seq<u8> {
    Seq::new(width, |j: int| (48 + (n / pow10((width - 1 - j) as nat)) % 10) as u8)
}

/// The name of the file of the given index and extension.
pub open spec fn file_name(index: nat, ext: Seq<u8>) -> Seq<u8> {
    padded_decimal(index, INDEX_PADDING as nat) + seq![46u8] + ext
}

/// The path of that file in directory `dir`.
pub open spec fn file_path(dir: Seq<u8>, index: nat, ext: Seq<u8>) -> Seq<u8> {
    dir + seq![47u8] + file_name(index, ext)
}

proof fn lemma_pow10_positive(k: nat)
    ensures
        pow10(k) >= 1,
    decreases k,
{
    if k > 0 {
        lemma_pow10_positive((k - 1) as nat);
    }
}

/// Writes `index` as twenty zero-padded decimal digits.
fn padded_digits(index: usize) -> (r: Vec<u8>)
    ensures
        r@ == padded_decimal(index as nat, INDEX_PADDING as nat),
{
    let mut digits: Vec<u8> = vec![48u8; INDEX_PADDING];
    let mut m: usize = index;
    let mut i: usize = INDEX_PADDING;
    assert(pow10(0) == 1);
    assert(index as nat / 1 == index as nat);
    assert(m == index as nat / pow10((INDEX_PADDING - i) as nat));
    while i > 0
        invariant
            i <= INDEX_PADDING,
            digits@.len() == INDEX_PADDING,
            m == index as nat / pow10((INDEX_PADDING - i) as nat),
            forall|j: int|
                i <= j < INDEX_PADDING ==> #[trigger] digits@[j] == (48 + (index as nat / pow10(
                    (INDEX_PADDING - 1 - j) as nat,
                )) % 10) as u8,
        decreases i,
    {
        i = i - 1;
        let d = (m % 10) as u8;
        digits.set(i, 48u8 + d);
        proof {
            let k = (INDEX_PADDING - 1 - i) as nat;
            lemma_pow10_positive(k);
            assert(pow10(k + 1) == 10 * pow10(k));
            vstd::arithmetic::div_mod::lemma_div_denominator(index as int, pow10(k) as int, 10);
            assert(pow10(k) * 10 == 10 * pow10(k)) by (nonlinear_arith);
        }
        m = m / 10;
    }
    assert(digits@ =~= padded_decimal(index as nat, INDEX_PADDING as nat));
    digits
}

/// Appends `b` to `out`.
pub fn append(out: &mut Vec<u8>, b: &[u8])
    ensures
        final(out)@ == old(out)@ + b@,
{
    let mut i: usize = 0;
    while i < b.len()
        invariant
            i <= b@.len(),
            out@ == old(out)@ + b@.subrange(0, i as int),
        decreases b@.len() - i,
    {
        out.push(b[i]);
        i = i + 1;
        assert(out@ =~= old(out)@ + b@.subrange(0, i as int));
    }
    assert(b@.subrange(0, i as int) =~= b@);
}

/// The path of the file of the given index and extension in `dir`.
pub fn get_file_path(dir: &[u8], index: usize, ext: &[u8]) -> (r: Vec<u8>)
    ensures
        r@ == file_path(dir@, index as nat, ext@),
{
    let mut path: Vec<u8> = Vec::new();
    append(&mut path, dir);
    path.push(47u8);
    let digits = padded_digits(index);
    append(&mut path, digits.as_slice());
    path.push(46u8);
    append(&mut path, ext);
    assert(path@ =~= file_path(dir@, index as nat, ext@));
    path
}

pub open spec fn is_digit(b: u8) -> bool {
    48 <= b <= 57
}

/// The number that a string of decimal digits spells.
pub open spec fn digits_value(s: Seq<u8>) -> nat
    decreases s.len(),
{
    if s.len() == 0 {
        0
    } else {
        digits_value(s.drop_last()) * 10 + (s.last() - 48) as nat
    }
}

/// Whether every byte of `s` is a decimal digit.
pub open spec fn all_digits(s: Seq<u8>) -> bool {
    forall|i: int| 0 <= i < s.len() ==> is_digit(#[trigger] s[i])
}

/// The index in the name of a file with extension `ext`, if the name is
/// one or more decimal digits, a dot and the extension.
pub open spec fn parsed_index(name: Seq<u8>, ext: Seq<u8>) -> Option<nat> {
    if name.len() >= ext.len() + 2 && name[name.len() - ext.len() - 1] == 46u8 && name.subrange(
        name.len() - ext.len(),
        name.len() as int,
    ) == ext && all_digits(name.subrange(0, name.len() - ext.len() - 1)) {
        Some(digits_value(name.subrange(0, name.len() - ext.len() - 1)))
    } else {
        None
    }
}

proof fn lemma_digits_value_prefix(s: Seq<u8>, i: int)
    requires
        0 <= i <= s.len(),
        forall|j: int| 0 <= j < s.len() ==> is_digit(#[trigger] s[j]),
    ensures
        digits_value(s.subrange(0, i)) <= digits_value(s),
    decreases s.len(),
{
    if i < s.len() {
        let t = s.drop_last();
        lemma_digits_value_prefix(t, i);
        assert(t.subrange(0, i) =~= s.subrange(0, i));
    } else {
        assert(s.subrange(0, i) =~= s);
    }
}

/// The index in a file name of the form `<digits>.<ext>`, if it has that
/// form and the index fits in a `usize`.
pub fn parse_file_index(name: &[u8], ext: &[u8]) -> (r: Option<usize>)
    ensures
        r matches Some(n) ==> parsed_index(name@, ext@) == Some(n as nat),
        r is None ==> (parsed_index(name@, ext@) matches Some(v) ==> v > usize::MAX),
{
    if name.len() < ext.len() || name.len() - ext.len() < 2 {
        return None;
    }
    let dot = name.len() - ext.len() - 1;
    if name[dot] != 46u8 {
        return None;
    }
    let mut i: usize = 0;
    while i < ext.len()
        invariant
            dot + 1 + ext@.len() == name@.len(),
            name@.len() == name.len(),
            ext@.len() == ext.len(),
            i <= ext@.len(),
            forall|j: int| 0 <= j < i ==> name@[dot + 1 + j] == #[trigger] ext@[j],
        decreases ext@.len() - i,
    {
        if name[dot + 1 + i] != ext[i] {
            proof {
                assert(name@.subrange(name@.len() - ext@.len(), name@.len() as int)[i as int] != ext@[i as int]);
            }
            return None;
        }
        i = i + 1;
    }
    assert(name@.subrange(name@.len() - ext@.len(), name@.len() as int) =~= ext@);
    let ghost digits = name@.subrange(0, dot as int);
    assert(digits == name@.subrange(0, name@.len() - ext@.len() - 1));
    let mut value: usize = 0;
    let mut k: usize = 0;
    while k < dot
        invariant
            dot < name@.len(),
            digits == name@.subrange(0, dot as int),
            digits == name@.subrange(0, name@.len() - ext@.len() - 1),
            name@.len() >= ext@.len() + 2,
            name@[name@.len() - ext@.len() - 1] == 46u8,
            name@.subrange(name@.len() - ext@.len(), name@.len() as int) == ext@,
            k <= dot,
            forall|j: int| 0 <= j < k ==> is_digit(#[trigger] digits[j]),
            value == digits_value(digits.subrange(0, k as int)),
        decreases dot - k,
    {
        let b = name[k];
        assert(digits[k as int] == b);
        if b < 48u8 || b > 57u8 {
            assert(!is_digit(digits[k as int]));
            assert(!all_digits(digits));
            return None;
        }
        assert(digits.subrange(0, k + 1).last() == b);
        assert(digits.subrange(0, k + 1).drop_last() =~= digits.subrange(0, k as int));
        let d = (b - 48u8) as usize;
        match value.checked_mul(10) {
            Some(v10) => match v10.checked_add(d) {
                Some(v) => {
                    value = v;
                },
                None => {
                    proof {
                        if all_digits(digits) {
                            lemma_digits_value_prefix(digits, k + 1);
                        }
                    }
                    return None;
                },
            },
            None => {
                proof {
                    if all_digits(digits) {
                        lemma_digits_value_prefix(digits, k + 1);
                    }
                }
                return None;
            },
        }
        k = k + 1;
    }
    assert(digits.subrange(0, k as int) =~= digits);
    Some(value)
}

} // verus!
