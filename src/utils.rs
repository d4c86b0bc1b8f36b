use std::cmp::Ordering;
use vstd::prelude::*;
use vstd::string::StringExecFns;

verus! {

/// Whether `value` is exactly `word`.
pub(crate) fn text_is(value: &str, word: &str) -> (r: bool)
    ensures
        r == (value@ == word@),
{
    <String as StringExecFns>::from_str(value) == <String as StringExecFns>::from_str(word)
}

/// The file name with at most one leading dot removed.
pub open spec fn strip_dot(name: Seq<u8>) -> Seq<u8> {
    if name.len() > 0 && name[0] == 0x2eu8 {
        name.drop_first()
    } else {
        name
    }
}

/// ASCII lower-casing of one byte; other bytes are kept.
pub open spec fn lower_byte(b: u8) -> u8 {
    if 0x41u8 <= b && b <= 0x5au8 {
        (b + 0x20u8) as u8
    } else {
        b
    }
}

/// The key under which file names are ordered: one leading dot dropped,
/// the rest lower-cased byte by byte.
pub open spec fn name_key(name: Seq<u8>) -> Seq<u8> {
    strip_dot(name).map_values(|b: u8| lower_byte(b))
}

/// Lexicographic order on byte sequences; a proper prefix comes first.
pub open spec fn lex_order(a: Seq<u8>, b: Seq<u8>) -> Ordering
    decreases a.len(),
{
    if a.len() == 0 && b.len() == 0 {
        Ordering::Equal
    } else if a.len() == 0 {
        Ordering::Less
    } else if b.len() == 0 {
        Ordering::Greater
    } else if a[0] < b[0] {
        Ordering::Less
    } else if a[0] > b[0] {
        Ordering::Greater
    } else {
        lex_order(a.drop_first(), b.drop_first())
    }
}

/// The order in which the walker must list the entries of one directory.
pub open spec fn file_name_order(a: Seq<u8>, b: Seq<u8>) -> Ordering {
    lex_order(name_key(a), name_key(b))
}

fn to_lower(b: u8) -> (r: u8)
    ensures
        r == lower_byte(b),
{
    if 0x41u8 <= b && b <= 0x5au8 {
        b + 0x20u8
    } else {
        b
    }
}

proof fn lemma_lex_order_skip(a: Seq<u8>, b: Seq<u8>, i: int)
    requires
        0 <= i < a.len(),
        i < b.len(),
        a[i] == b[i],
    ensures
        lex_order(a.skip(i), b.skip(i)) == lex_order(a.skip(i + 1), b.skip(i + 1)),
{
    assert(a.skip(i).drop_first() =~= a.skip(i + 1));
    assert(b.skip(i).drop_first() =~= b.skip(i + 1));
}

/// Compares two file names as a directory listing shows them: one leading
/// dot is ignored, case is ignored for ASCII letters, and a name that is a
/// prefix of the other comes first.
pub fn compare_file_names(file_name_1: &[u8], file_name_2: &[u8]) -> (r: Ordering)
    ensures
        r == file_name_order(file_name_1@, file_name_2@),
{
    let start_1: usize = if file_name_1.len() > 0 && file_name_1[0] == 0x2eu8 {
        1
    } else {
        0
    };
    let start_2: usize = if file_name_2.len() > 0 && file_name_2[0] == 0x2eu8 {
        1
    } else {
        0
    };
    let ghost key_1 = name_key(file_name_1@);
    let ghost key_2 = name_key(file_name_2@);
    assert(key_1.len() == file_name_1.len() - start_1);
    assert(key_2.len() == file_name_2.len() - start_2);
    assert(key_1.skip(0) =~= key_1);
    assert(key_2.skip(0) =~= key_2);
    let mut i: usize = 0;
    while i < file_name_1.len() - start_1 && i < file_name_2.len() - start_2
        invariant
            start_1 <= file_name_1.len(),
            start_2 <= file_name_2.len(),
            key_1 == name_key(file_name_1@),
            key_2 == name_key(file_name_2@),
            key_1.len() == file_name_1.len() - start_1,
            key_2.len() == file_name_2.len() - start_2,
            forall|k: int| 0 <= k < key_1.len() ==> #[trigger] key_1[k] == lower_byte(file_name_1@[k + start_1]),
            forall|k: int| 0 <= k < key_2.len() ==> #[trigger] key_2[k] == lower_byte(file_name_2@[k + start_2]),
            i <= key_1.len(),
            i <= key_2.len(),
            lex_order(key_1.skip(i as int), key_2.skip(i as int)) == lex_order(key_1, key_2),
        decreases key_1.len() - i,
    {
        let byte_1 = to_lower(file_name_1[i + start_1]);
        let byte_2 = to_lower(file_name_2[i + start_2]);
        assert(key_1.skip(i as int)[0] == byte_1);
        assert(key_2.skip(i as int)[0] == byte_2);
        if byte_1 < byte_2 {
            return Ordering::Less;
        } else if byte_1 > byte_2 {
            return Ordering::Greater;
        }
        proof {
            lemma_lex_order_skip(key_1, key_2, i as int);
        }
        i = i + 1;
    }
    let rest_1 = file_name_1.len() - start_1 - i;
    let rest_2 = file_name_2.len() - start_2 - i;
    assert(key_1.skip(i as int).len() == rest_1);
    assert(key_2.skip(i as int).len() == rest_2);
    if rest_1 == 0 && rest_2 == 0 {
        Ordering::Equal
    } else if rest_1 == 0 {
        Ordering::Less
    } else {
        Ordering::Greater
    }
}

} // verus!
