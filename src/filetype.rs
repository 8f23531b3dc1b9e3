//! Classification of a file by the extension of its path.
use vstd::prelude::*;
use vstd::utf8::encode_utf8;

verus! {

/// The kind of content a file holds, which decides how it is chunked.
#[derive(Debug, Clone, Copy, PartialEq, Eq, Structural)]
pub enum FileType {
    Code,
    Prose,
    Config,
    Unknown,
}

pub const SLASH: u8 = 47;

pub const DOT: u8 = 46;

/// Index of the last occurrence of `c` in `b`, or -1.
pub open spec fn last_index_of(b: Seq<u8>, c: u8) -> int
    decreases b.len(),
{
    if b.len() == 0 {
        -1
    } else if b.last() == c {
        b.len() - 1
    } else {
        last_index_of(b.drop_last(), c)
    }
}

/// The final component of a path: empty and `.` components are skipped,
/// and a final `..` has no name.
pub open spec fn file_name_of(b: Seq<u8>) -> Option<Seq<u8>>
    decreases b.len(),
{
    let k = last_index_of(b, SLASH);
    let comp = b.subrange(k + 1, b.len() as int);
    if comp.len() == 0 || comp == seq![DOT] {
        if 0 <= k < b.len() {
            file_name_of(b.subrange(0, k))
        } else {
            None
        }
    } else if comp == seq![DOT, DOT] {
        None
    } else {
        Some(comp)
    }
}

/// The extension of a path: what follows the last `.` of its file name,
/// where that dot is not the name's first byte.
pub open spec fn extension_of(b: Seq<u8>) -> Option<Seq<u8>> {
    match file_name_of(b) {
        None => None,
        Some(name) => {
            let d = last_index_of(name, DOT);
            if d <= 0 {
                None
            } else {
                Some(name.subrange(d + 1, name.len() as int))
            }
        },
    }
}

/// The fixed table from extension to file type.
pub open spec fn type_of_extension(ext: Option<Seq<u8>>) -> FileType {
    match ext {
        Some(e) => {
            if e == seq![114u8, 115u8] || e == seq![112u8, 121u8] || e == seq![99u8] || e
                == seq![99u8, 112u8, 112u8] {
                FileType::Code
            } else if e == seq![109u8, 100u8] || e == seq![116u8, 120u8, 116u8] {
                FileType::Prose
            } else if e == seq![106u8, 115u8, 111u8, 110u8] || e == seq![
                116u8,
                111u8,
                109u8,
                108u8,
            ] || e == seq![121u8, 97u8, 109u8, 108u8] {
                FileType::Config
            } else {
                FileType::Unknown
            }
        },
        None => FileType::Unknown,
    }
}

/// The type that `detect_type` gives a path.
pub open spec fn type_of_path(path: Seq<char>) -> FileType {
    type_of_extension(extension_of(encode_utf8(path)))
}

/// Two paths with the same extension get the same file type.
pub proof fn lemma_type_depends_on_extension_only(p: Seq<char>, q: Seq<char>)
    requires
        extension_of(encode_utf8(p)) == extension_of(encode_utf8(q)),
    ensures
        type_of_path(p) == type_of_path(q),
{
}

fn last_index_in(b: &[u8], start: usize, end: usize, c: u8) -> (r: Option<usize>)
    requires
        start <= end <= b@.len(),
    ensures
        match r {
            Some(k) => start <= k < end && last_index_of(b@.subrange(start as int, end as int), c)
                == k - start,
            None => last_index_of(b@.subrange(start as int, end as int), c) == -1,
        },
{
    let mut i = end;
    while i > start
        invariant
            start <= i <= end <= b@.len(),
            last_index_of(b@.subrange(start as int, end as int), c) == last_index_of(
                b@.subrange(start as int, i as int),
                c,
            ),
        decreases i,
    {
        if b[i - 1] == c {
            return Some(i - 1);
        }
        assert(b@.subrange(start as int, i as int).drop_last() =~= b@.subrange(
            start as int,
            i - 1,
        ));
        i = i - 1;
    }
    None
}

/// Whether `b[start..end]` holds exactly the bytes of `lit`.
pub(crate) fn range_equals(b: &[u8], start: usize, end: usize, lit: &[u8]) -> (r: bool)
    requires
        start <= end <= b@.len(),
    ensures
        r == (b@.subrange(start as int, end as int) == lit@),
{
    if end - start != lit.len() {
        return false;
    }
    let mut i: usize = 0;
    while i < lit.len()
        invariant
            start <= end <= b@.len(),
            end - start == lit@.len(),
            i <= lit@.len(),
            forall|j: int| 0 <= j < i ==> b@[start + j] == lit@[j],
        decreases lit@.len() - i,
    {
        if b[start + i] != lit[i] {
            assert(b@.subrange(start as int, end as int)[i as int] != lit@[i as int]);
            return false;
        }
        i = i + 1;
    }
    assert(b@.subrange(start as int, end as int) =~= lit@);
    true
}

/// The byte range of the file name of `b[..end]`, if it has one.
fn file_name_range(b: &[u8], end: usize) -> (r: Option<(usize, usize)>)
    requires
        end <= b@.len(),
    ensures
        match r {
            Some((s, e)) => s <= e <= end && file_name_of(b@.subrange(0, end as int)) == Some(
                b@.subrange(s as int, e as int),
            ),
            None => file_name_of(b@.subrange(0, end as int)) == None::<Seq<u8>>,
        },
{
    let mut e = end;
    loop
        invariant
            e <= end <= b@.len(),
            file_name_of(b@.subrange(0, end as int)) == file_name_of(b@.subrange(0, e as int)),
        decreases e,
    {
        let ghost prefix = b@.subrange(0, e as int);
        let k = last_index_in(b, 0, e, SLASH);
        let s: usize = match k {
            Some(k) => k + 1,
            None => 0,
        };
        assert(prefix.subrange(last_index_of(prefix, SLASH) + 1, prefix.len() as int)
            =~= b@.subrange(s as int, e as int));
        let is_dot = range_equals(b, s, e, &[DOT]);
        let is_dotdot = range_equals(b, s, e, &[DOT, DOT]);
        proof {
            assert(seq![DOT] =~= [DOT]@);
            assert(seq![DOT, DOT] =~= [DOT, DOT]@);
        }
        if s == e || is_dot {
            match k {
                None => {
                    return None;
                },
                Some(k) => {
                    assert(prefix.subrange(0, k as int) =~= b@.subrange(0, k as int));
                    e = k;
                },
            }
        } else if is_dotdot {
            return None;
        } else {
            return Some((s, e));
        }
    }
}

/// Classifies a file by the extension of its path: source code, prose,
/// configuration, or unknown.
pub fn detect_type(path: &str) -> (r: FileType)
    ensures
        r == type_of_path(path@),
{
    let b = path.as_bytes();
    proof {
        assert(b@.subrange(0, b@.len() as int) =~= b@);
    }
    let name = file_name_range(b, b.len());
    match name {
        None => FileType::Unknown,
        Some((s, e)) => {
            let d = last_index_in(b, s, e, DOT);
            match d {
                Some(d) => {
                    if d > s {
                        let ghost nm = b@.subrange(s as int, e as int);
                        assert(nm.subrange(d - s + 1, nm.len() as int) =~= b@.subrange(
                            d + 1,
                            e as int,
                        ));
                        type_of_range(b, d + 1, e)
                    } else {
                        FileType::Unknown
                    }
                },
                None => FileType::Unknown,
            }
        },
    }
}

fn type_of_range(b: &[u8], s: usize, e: usize) -> (r: FileType)
    requires
        s <= e <= b@.len(),
    ensures
        r == type_of_extension(Some(b@.subrange(s as int, e as int))),
{
    proof {
        assert(seq![114u8, 115u8] =~= [114u8, 115u8]@);
        assert(seq![112u8, 121u8] =~= [112u8, 121u8]@);
        assert(seq![99u8] =~= [99u8]@);
        assert(seq![99u8, 112u8, 112u8] =~= [99u8, 112u8, 112u8]@);
        assert(seq![109u8, 100u8] =~= [109u8, 100u8]@);
        assert(seq![116u8, 120u8, 116u8] =~= [116u8, 120u8, 116u8]@);
        assert(seq![106u8, 115u8, 111u8, 110u8] =~= [106u8, 115u8, 111u8, 110u8]@);
        assert(seq![116u8, 111u8, 109u8, 108u8] =~= [116u8, 111u8, 109u8, 108u8]@);
        assert(seq![121u8, 97u8, 109u8, 108u8] =~= [121u8, 97u8, 109u8, 108u8]@);
    }
    if range_equals(b, s, e, &[114u8, 115u8]) || range_equals(b, s, e, &[112u8, 121u8])
        || range_equals(b, s, e, &[99u8]) || range_equals(b, s, e, &[99u8, 112u8, 112u8]) {
        FileType::Code
    } else if range_equals(b, s, e, &[109u8, 100u8]) || range_equals(
        b,
        s,
        e,
        &[116u8, 120u8, 116u8],
    ) {
        FileType::Prose
    } else if range_equals(b, s, e, &[106u8, 115u8, 111u8, 110u8]) || range_equals(
        b,
        s,
        e,
        &[116u8, 111u8, 109u8, 108u8],
    ) || range_equals(b, s, e, &[121u8, 97u8, 109u8, 108u8]) {
        FileType::Config
    } else {
        FileType::Unknown
    }
}

} // verus!
