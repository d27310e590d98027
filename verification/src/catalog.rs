//! The device catalog: enumeration and lookup over a set of embedded
//! `(file name, contents)` resources.

use vstd::prelude::*;
use crate::device::DeviceSpecification;
use crate::config::parse_device_spec;

verus! {

/// Whether a file name ends in `.toml`.
pub open spec fn is_toml_name(s: Seq<u8>) -> bool {
    s.len() >= 5 && s[s.len() - 5] == 46u8 && s[s.len() - 4] == 116u8 && s[s.len() - 3] == 111u8
        && s[s.len() - 2] == 109u8 && s[s.len() - 1] == 108u8
}

/// The file name with its `.toml` extension removed.
pub open spec fn stem(s: Seq<u8>) -> Seq<u8> {
    s.subrange(0, s.len() - 5)
}

/// The device names of a resource list: the stems of the `.toml`
/// entries, in order.
pub open spec fn device_names_spec(names: Seq<Seq<u8>>) -> Seq<Seq<u8>>
    decreases names.len(),
{
    if names.len() == 0 {
        Seq::empty()
    } else {
        let rest = device_names_spec(names.drop_last());
        if is_toml_name(names.last()) {
            rest.push(stem(names.last()))
        } else {
            rest
        }
    }
}

/// Whether `name` ends in `.toml`, executably.
fn toml_name(name: &[u8]) -> (r: bool)
    ensures
        r == is_toml_name(name@),
{
    let m = name.len();
    m >= 5 && name[m - 5] == 46 && name[m - 4] == 116 && name[m - 3] == 111 && name[m - 2] == 109
        && name[m - 1] == 108
}

/// Enumerate the device names of the embedded resources: every file
/// name that ends in `.toml`, with the extension removed, in order.
pub fn device_names(files: &Vec<Vec<u8>>) -> (r: Vec<Vec<u8>>)
    ensures
        r@.map_values(|v: Vec<u8>| v@) == device_names_spec(files@.map_values(|v: Vec<u8>| v@)),
{
    let mut out: Vec<Vec<u8>> = Vec::new();
    let n = files.len();
    let mut i: usize = 0;
    while i < n
        invariant
            n == files@.len(),
            i <= n,
            out@.map_values(|v: Vec<u8>| v@) == device_names_spec(
                files@.map_values(|v: Vec<u8>| v@).subrange(0, i as int),
            ),
        decreases n - i,
    {
        let name = &files[i];
        proof {
            assert(files@.map_values(|v: Vec<u8>| v@).subrange(0, i + 1).drop_last()
                =~= files@.map_values(|v: Vec<u8>| v@).subrange(0, i as int));
            assert(files@.map_values(|v: Vec<u8>| v@).subrange(0, i + 1).last() == files@[
            i as int]@);
        }
        if toml_name(name.as_slice()) {
            let m = name.len();
            let mut s: Vec<u8> = Vec::new();
            let mut k: usize = 0;
            while k < m - 5
                invariant
                    m == name@.len(),
                    m >= 5,
                    k <= m - 5,
                    s@.len() == k,
                    forall|j: int| 0 <= j < k ==> s@[j] == name@[j],
                decreases m - 5 - k,
            {
                s.push(name[k]);
                k = k + 1;
            }
            proof {
                assert(s@ =~= stem(name@));
            }
            out.push(s);
            proof {
                assert(out@.map_values(|v: Vec<u8>| v@) =~= device_names_spec(
                    files@.map_values(|v: Vec<u8>| v@).subrange(0, i + 1),
                ));
            }
        } else {
            proof {
                assert(out@.map_values(|v: Vec<u8>| v@) =~= device_names_spec(
                    files@.map_values(|v: Vec<u8>| v@).subrange(0, i + 1),
                ));
            }
        }
        i = i + 1;
    }
    proof {
        assert(files@.map_values(|v: Vec<u8>| v@).subrange(0, n as int) =~= files@.map_values(
            |v: Vec<u8>| v@,
        ));
    }
    out
}

/// The bytes of the `.toml` extension.
pub open spec fn toml_suffix() -> Seq<u8> {
    seq![46u8, 116u8, 111u8, 109u8, 108u8]
}

/// The contents of the first file called `fname`, if any.
pub open spec fn find_file(files: Seq<(Seq<u8>, Seq<u8>)>, fname: Seq<u8>) -> Option<Seq<u8>>
    decreases files.len(),
{
    if files.len() == 0 {
        None
    } else if files[0].0 == fname {
        Some(files[0].1)
    } else {
        find_file(files.skip(1), fname)
    }
}

proof fn lemma_find_file_some(files: Seq<(Seq<u8>, Seq<u8>)>, fname: Seq<u8>, i: int)
    requires
        0 <= i < files.len(),
        files[i].0 == fname,
        forall|j: int| 0 <= j < i ==> (#[trigger] files[j]).0 != fname,
    ensures
        find_file(files, fname) == Some(files[i].1),
    decreases i,
{
    if i > 0 {
        assert(forall|j: int|
            0 <= j < files.skip(1).len() ==> (#[trigger] files.skip(1)[j]) == files[j + 1]);
        lemma_find_file_some(files.skip(1), fname, i - 1);
    }
}

proof fn lemma_find_file_none(files: Seq<(Seq<u8>, Seq<u8>)>, fname: Seq<u8>)
    requires
        forall|j: int| 0 <= j < files.len() ==> (#[trigger] files[j]).0 != fname,
    ensures
        find_file(files, fname) is None,
    decreases files.len(),
{
    if files.len() > 0 {
        assert(forall|j: int|
            0 <= j < files.skip(1).len() ==> (#[trigger] files.skip(1)[j]) == files[j + 1]);
        lemma_find_file_none(files.skip(1), fname);
    }
}

/// Load the device called `name`: find the resource `name` plus
/// `.toml` and parse it.  Succeeds exactly when the resource exists
/// and its description folds to a complete, well-formed device; the
/// result is then that parse.  A missing resource or a malformed
/// description gives `None`.
pub fn load_device(files: &Vec<(Vec<u8>, Vec<u8>)>, name: &[u8]) -> (r: Option<
    DeviceSpecification,
>)
    requires
        forall|i: int| 0 <= i < files@.len() ==> (#[trigger] files@[i]).1@.len() <= 1000000,
    ensures
        ({
            let f = find_file(
                files@.map_values(|p: (Vec<u8>, Vec<u8>)| (p.0@, p.1@)),
                name@ + crate::catalog::toml_suffix(),
            );
            &&& f is None ==> r is None
            &&& f matches Some(content) ==> (r is Some <==> (crate::config::config_fold(
                content,
                0,
                crate::config::init_state(),
            ) matches Some(st) && st.delay is Some && st.ratio is Some && st.offset is Some))
            &&& r matches Some(d) ==> {
                &&& d.wf()
                &&& f matches Some(content) && crate::config::config_fold(
                    content,
                    0,
                    crate::config::init_state(),
                ) matches Some(st) && st.delay == Some(d.loop_delay) && st.ratio == Some(
                    d.max_pole_zero_ratio,
                ) && st.offset == Some(d.offset_resistance) && d.ranges_view() == st.ranges
            }
        }),
{
    let ghost target = name@ + toml_suffix();
    let n = files.len();
    let mut i: usize = 0;
    while i < n
        invariant
            n == files@.len(),
            i <= n,
            target == name@ + toml_suffix(),
            forall|j: int| 0 <= j < files@.len() ==> (#[trigger] files@[j]).1@.len() <= 1000000,
            forall|j: int| 0 <= j < i ==> (#[trigger] files@[j]).0@ != target,
        decreases n - i,
    {
        let entry = &files[i];
        let fname = entry.0.as_slice();
        let m = entry.0.len();
        if toml_name(fname) && m - 5 == name.len() {
            let mut same = true;
            let mut k: usize = 0;
            while k < name.len()
                invariant
                    k <= name@.len(),
                    name@.len() == m - 5,
                    m == fname@.len(),
                    fname@ == entry.0@,
                    same == (forall|j: int| 0 <= j < k ==> fname@[j] == name@[j]),
                decreases name@.len() - k,
            {
                if fname[k] != name[k] {
                    same = false;
                }
                k = k + 1;
            }
            if same {
                proof {
                    assert(fname@ =~= target);
                    let mapped = files@.map_values(|p: (Vec<u8>, Vec<u8>)| (p.0@, p.1@));
                    assert(mapped[i as int].0 == target);
                    lemma_find_file_some(mapped, target, i as int);
                }
                return parse_device_spec(entry.1.as_slice());
            }
            proof {
                let j = choose|j: int| 0 <= j < name@.len() && fname@[j] != name@[j];
                assert(target[j] == name@[j]);
                assert(fname@ != target);
            }
        } else {
            proof {
                if fname@ == target {
                    assert(fname@.len() == name@.len() + 5);
                    assert(fname@[name@.len() as int + 0] == 46u8);
                    assert(fname@[name@.len() as int + 1] == 116u8);
                    assert(fname@[name@.len() as int + 2] == 111u8);
                    assert(fname@[name@.len() as int + 3] == 109u8);
                    assert(fname@[name@.len() as int + 4] == 108u8);
                    assert(is_toml_name(fname@));
                    assert(false);
                }
            }
        }
        i = i + 1;
    }
    proof {
        let mapped = files@.map_values(|p: (Vec<u8>, Vec<u8>)| (p.0@, p.1@));
        assert(forall|j: int|
            0 <= j < files@.len() ==> (#[trigger] mapped[j]).0 == files@[j].0@);
        lemma_find_file_none(mapped, target);
    }
    None
}

} // verus!
