//! Snapshot names (`YYYY-MM-DDTHH-MM-SS.mmmZ`) and the choice of diffs that
//! lead from a base snapshot to a target.
use vstd::prelude::*;
use vstd::string::StringSliceAdditionalSpecFns;
use vstd::utf8::{
    encode_utf8, encode_utf8_valid_utf8, is_char_boundary, is_char_boundary_iff_is_leading_byte,
    is_char_boundary_start_end_of_seq, length_of_first_scalar, pop_first_scalar, valid_utf8,
};

use crate::chunk_spec::is_digit;
use crate::ErrorKind;

verus! {

/// Length of a snapshot name.
pub const NAME_LEN: usize = 24;

/// Byte `k` of a snapshot name may be `b`.
pub open spec fn name_byte_ok(k: int, b: u8) -> bool {
    if k == 4 || k == 7 || k == 13 || k == 16 {
        b == 0x2d
    } else if k == 10 {
        b == 0x54
    } else if k == 19 {
        b == 0x2e
    } else if k == 23 {
        b == 0x5a
    } else {
        is_digit(b)
    }
}

/// A snapshot name starts at offset `i` of `s`.
pub open spec fn name_at(s: Seq<u8>, i: int) -> bool {
    0 <= i && i + 24 <= s.len() && forall|k: int| 0 <= k < 24 ==> name_byte_ok(k, #[trigger] s[i + k])
}

/// The first offset at or after `from` where a snapshot name starts, or -1.
pub open spec fn find_name(s: Seq<u8>, from: int) -> int
    decreases s.len() - from,
{
    if from < 0 || from + 24 > s.len() {
        -1
    } else if name_at(s, from) {
        from
    } else {
        find_name(s, from + 1)
    }
}

fn name_byte_matches(k: usize, b: u8) -> (r: bool)
    ensures
        r == name_byte_ok(k as int, b),
{
    if k == 4 || k == 7 || k == 13 || k == 16 {
        b == 0x2d
    } else if k == 10 {
        b == 0x54
    } else if k == 19 {
        b == 0x2e
    } else if k == 23 {
        b == 0x5a
    } else {
        0x30 <= b && b <= 0x39
    }
}

fn name_starts_at(s: &[u8], i: usize) -> (r: bool)
    requires
        i + 24 <= s@.len(),
    ensures
        r == name_at(s@, i as int),
{
    let _n = s.len();
    let mut k: usize = 0;
    while k < NAME_LEN
        invariant
            k <= 24,
            i + 24 <= s@.len(),
            s@.len() <= usize::MAX,
            forall|j: int| 0 <= j < k ==> name_byte_ok(j, #[trigger] s@[i + j]),
        decreases 24 - k,
    {
        if !name_byte_matches(k, s[i + k]) {
            return false;
        }
        k += 1;
    }
    true
}

/// The offset of the first snapshot name in `s`.
pub fn find_snapshot_name(s: &[u8]) -> (r: Option<usize>)
    ensures
        match r {
            Some(i) => i as int == find_name(s@, 0) && i >= 0,
            None => find_name(s@, 0) == -1,
        },
{
    if s.len() < NAME_LEN {
        return None;
    }
    let mut i: usize = 0;
    while i <= s.len() - NAME_LEN
        invariant
            s@.len() >= 24,
            i + 24 <= s@.len() + 1,
            find_name(s@, 0) == find_name(s@, i as int),
        decreases s@.len() - i,
    {
        if name_starts_at(s, i) {
            return Some(i);
        }
        i += 1;
    }
    None
}

proof fn lemma_boundary_after_ascii(bytes: Seq<u8>, k: int)
    requires
        valid_utf8(bytes),
        0 <= k < bytes.len(),
        is_char_boundary(bytes, k),
        bytes[k] <= 0x7f,
    ensures
        is_char_boundary(bytes, k + 1),
    decreases bytes.len(),
{
    let l = length_of_first_scalar(bytes);
    let pop = pop_first_scalar(bytes);
    assert(vstd::utf8::valid_first_scalar(bytes) && valid_utf8(pop));
    assert(vstd::utf8::valid_leading_and_continuation_bytes_first_codepoint(bytes));
    assert(1 <= l <= bytes.len());
    assert(pop == bytes.subrange(l, bytes.len() as int));
    if k == 0 {
        assert(l == 1);
        assert(is_char_boundary(pop, 0));
    } else {
        assert(k >= l);
        assert(pop[k - l] == bytes[k]);
        if k > l {
            lemma_boundary_after_ascii(pop, k - l);
        } else {
            assert(pop.len() > 0);
            lemma_boundary_after_ascii(pop, 0);
        }
    }
}

proof fn lemma_name_boundaries(bytes: Seq<u8>, k: int)
    requires
        valid_utf8(bytes),
        name_at(bytes, 0),
        0 <= k <= 24,
    ensures
        is_char_boundary(bytes, k),
    decreases k,
{
    if k == 0 {
        is_char_boundary_start_end_of_seq(bytes);
    } else {
        lemma_name_boundaries(bytes, k - 1);
        assert(name_byte_ok(k - 1, bytes[0 + (k - 1)]));
        lemma_boundary_after_ascii(bytes, k - 1);
    }
}

/// Extracts the first snapshot name from a string such as a file name.
pub fn extract_datetime(s: &str) -> (r: Option<String>)
    ensures
        match r {
            None => find_name(s.spec_bytes(), 0) == -1,
            Some(t) => find_name(s.spec_bytes(), 0) >= 0 && encode_utf8(t@) == s.spec_bytes().subrange(
                find_name(s.spec_bytes(), 0),
                find_name(s.spec_bytes(), 0) + 24,
            ),
        },
{
    let bytes = s.as_bytes();
    let i = match find_snapshot_name(bytes) {
        Some(i) => i,
        None => return None,
    };
    proof {
        assert(find_name(s.spec_bytes(), 0) == i);
        lemma_find_name(s.spec_bytes(), 0);
        encode_utf8_valid_utf8(s@);
        lemma_find_name_matches(s.spec_bytes(), 0);
        if i > 0 {
            assert(name_byte_ok(0, s.spec_bytes()[i + 0]));
            is_char_boundary_iff_is_leading_byte(s.spec_bytes(), i as int);
        } else {
            is_char_boundary_start_end_of_seq(s.spec_bytes());
        }
    }
    let (_, rest) = s.split_at(i);
    proof {
        encode_utf8_valid_utf8(rest@);
        let rb = rest.spec_bytes();
        assert forall|k: int| 0 <= k < 24 implies name_byte_ok(k, #[trigger] rb[0 + k]) by {
            assert(rb[k] == s.spec_bytes()[i + k]);
        }
        lemma_name_boundaries(rb, 24);
    }
    let (name, _) = rest.split_at(NAME_LEN);
    let r = name.to_owned();
    assert(name.spec_bytes() =~= s.spec_bytes().subrange(i as int, i + 24));
    Some(r)
}

proof fn lemma_find_name_matches(s: Seq<u8>, from: int)
    requires
        0 <= from,
    ensures
        find_name(s, from) >= 0 ==> name_at(s, find_name(s, from)),
    decreases s.len() - from,
{
    if from + 24 <= s.len() && !name_at(s, from) {
        lemma_find_name_matches(s, from + 1);
    }
}

proof fn lemma_find_name(s: Seq<u8>, from: int)
    requires
        0 <= from,
    ensures
        find_name(s, from) == -1 || (from <= find_name(s, from) && find_name(s, from) + 24 <= s.len()),
    decreases s.len() - from,
{
    if from + 24 <= s.len() && !name_at(s, from) {
        lemma_find_name(s, from + 1);
    }
}

/// No name occurs twice.
pub open spec fn distinct_names(names: Seq<String>) -> bool {
    forall|i: int, j: int| 0 <= i < j < names.len() ==> (#[trigger] names[i])@ != (#[trigger] names[j])@
}

/// Chooses the diffs to replay, as the index range `start..end` of `names`
/// (the diff names in snapshot order): those after the base snapshot, up to
/// and including the target (the newest when `target` is `None`). A list
/// with a repeated name, or without the target, or with the base after the
/// target, is a `Spec` error.
pub fn select_diffs(names: &[String], base: &String, target: Option<&String>) -> (r: Result<(usize, usize), ErrorKind>)
    ensures
        match r {
            Ok((start, end)) => {
                &&& distinct_names(names@)
                &&& start <= end <= names@.len()
                &&& end >= 1
                &&& names@[end - 1]@ == match target {
                    Some(t) => t@,
                    None => names@.last()@,
                }
                &&& (start == 0 ==> forall|i: int| 0 <= i < names@.len() ==> (#[trigger] names@[i])@ != base@)
                &&& (start > 0 ==> names@[start - 1]@ == base@)
            },
            Err(e) => e == ErrorKind::Spec && (names@.len() == 0 || !distinct_names(names@) || match target {
                Some(t) => forall|i: int| 0 <= i < names@.len() ==> (#[trigger] names@[i])@ != t@,
                None => false,
            } || exists|a: int, b: int| 0 <= a < b < names@.len() && names@[b]@ == base@ && names@[a]@ == match target {
                Some(t) => t@,
                None => names@.last()@,
            }),
        },
{
    let n = names.len();
    if n == 0 {
        return Err(ErrorKind::Spec);
    }
    let mut i: usize = 0;
    while i < n
        invariant
            n == names@.len(),
            i <= n,
            forall|a: int, b: int| 0 <= a < b < names@.len() && a < i ==> (#[trigger] names@[a])@ != (#[trigger] names@[b])@,
        decreases n - i,
    {
        let mut j: usize = i + 1;
        while j < n
            invariant
                n == names@.len(),
                i < n,
                i + 1 <= j <= n,
                forall|a: int, b: int| 0 <= a < b < names@.len() && a < i ==> (#[trigger] names@[a])@ != (#[trigger] names@[b])@,
                forall|b: int| i < b < j ==> names@[i as int]@ != (#[trigger] names@[b])@,
            decreases n - j,
        {
            if names[i] == names[j] {
                return Err(ErrorKind::Spec);
            }
            j += 1;
        }
        i += 1;
    }
    let t: &String = match target {
        Some(t) => t,
        None => &names[n - 1],
    };
    let mut dest: usize = 0;
    let mut found = false;
    let mut k: usize = 0;
    while k < n
        invariant
            n == names@.len(),
            k <= n,
            !found ==> forall|b: int| 0 <= b < k ==> (#[trigger] names@[b])@ != t@,
            found ==> dest < n && names@[dest as int]@ == t@,
        decreases n - k,
    {
        if !found && names[k] == *t {
            dest = k;
            found = true;
        }
        k += 1;
    }
    if !found {
        return Err(ErrorKind::Spec);
    }
    let mut start: usize = 0;
    let mut m: usize = 0;
    while m < n
        invariant
            n == names@.len(),
            m <= n,
            start <= n,
            start == 0 ==> forall|b: int| 0 <= b < m ==> (#[trigger] names@[b])@ != base@,
            start > 0 ==> names@[start - 1]@ == base@,
        decreases n - m,
    {
        if start == 0 && names[m] == *base {
            start = m + 1;
        }
        m += 1;
    }
    if start > dest + 1 {
        assert(names@[dest as int]@ == t@ && names@[start - 1]@ == base@);
        return Err(ErrorKind::Spec);
    }
    Ok((start, dest + 1))
}

} // verus!
