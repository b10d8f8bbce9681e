//! Handles: names under which the evidence of a file can be asked for.
//!
//! A handle is made of the blob that the file has at the head, so it stays good
//! for as long as the blob does.

use vstd::prelude::*;

use crate::replay::FileSeries;
use crate::sorted_map::SortedMap;

verus! {

/// A file and the blob that it has.
pub struct FileHandle {
    pub file: u32,
    pub blob_sha: String,
}

/// As much of a sha as a handle shows.
pub open spec fn prefix_of(sha: Seq<char>) -> Seq<char> {
    if sha.len() > 12 {
        sha.take(12)
    } else {
        sha
    }
}

/// The name of the handle of a blob.
pub open spec fn handle_name(sha: Seq<char>) -> Seq<char> {
    "file:"@ + prefix_of(sha)
}

/// `entropyx_core::Handle::file` keeps the first twelve characters of the sha,
/// and `entropyx_core::Handle::key` puts `file:` in front of them.
#[verifier::external_body]
fn handle_key(file: u32, sha: &str) -> (r: String)
    ensures
        r@ == handle_name(sha@),
{
    entropyx_core::Handle::file(entropyx_core::FileId(file), sha).key()
}

/// The handles of the first `n` files: for each file that the head has, its
/// number and blob, under the name of the blob. The last of several files with
/// one name has it.
pub open spec fn handles_of(
    files: Seq<Seq<char>>,
    head: Map<Seq<char>, String>,
    n: nat,
) -> Map<Seq<char>, (u32, Seq<char>)>
    decreases n,
{
    if n == 0 {
        Map::empty()
    } else {
        let before = handles_of(files, head, (n - 1) as nat);
        let p = files[n - 1];
        if head.contains_key(p) {
            before.insert(handle_name(head[p]@), ((n - 1) as u32, head[p]@))
        } else {
            before
        }
    }
}

/// Handles as values.
pub open spec fn handle_models(
    m: Map<Seq<char>, FileHandle>,
) -> Map<Seq<char>, (u32, Seq<char>)> {
    m.map_values(|h: FileHandle| (h.file, h.blob_sha@))
}

/// A handle leads to a file that the head has, with a blob of that name.
pub proof fn handles_lead_to_files(
    files: Seq<Seq<char>>,
    head: Map<Seq<char>, String>,
    n: nat,
    key: Seq<char>,
)
    requires
        n <= files.len() <= u32::MAX,
        handles_of(files, head, n).contains_key(key),
    ensures
        ({
            let (file, sha) = handles_of(files, head, n)[key];
            &&& file < n
            &&& head.contains_key(files[file as int])
            &&& head[files[file as int]]@ == sha
            &&& key == handle_name(sha)
        }),
    decreases n,
{
    if n > 0 {
        let p = files[n - 1];
        if !(head.contains_key(p) && key == handle_name(head[p]@)) {
            handles_lead_to_files(files, head, (n - 1) as nat, key);
        }
    }
}

/// Every file that the head has is reached by a handle, its own or that of a
/// later file with a blob of the same name.
pub proof fn head_files_have_handles(
    files: Seq<Seq<char>>,
    head: Map<Seq<char>, String>,
    n: nat,
    i: int,
)
    requires
        0 <= i < n <= files.len(),
        head.contains_key(files[i]),
    ensures
        handles_of(files, head, n).contains_key(handle_name(head[files[i]]@)),
    decreases n,
{
    if i < n - 1 {
        head_files_have_handles(files, head, (n - 1) as nat, i);
    }
}

/// Mint a handle for every file that the head has.
pub fn mint_handles(
    series: &SortedMap<FileSeries>,
    head: &SortedMap<String>,
) -> (r: SortedMap<FileHandle>)
    requires
        series.wf(),
        head.wf(),
        series.key_seq().len() <= u32::MAX,
    ensures
        r.wf(),
        handle_models(r@) == handles_of(series.key_seq(), head@, series.key_seq().len()),
{
    let ghost files = series.key_seq();
    let mut m: SortedMap<FileHandle> = SortedMap::new();
    let n: usize = series.len();
    let mut i: usize = 0;
    assert(handle_models(m@) =~= Map::empty());
    while i < n
        invariant
            series.wf(),
            head.wf(),
            files == series.key_seq(),
            n == files.len(),
            n <= u32::MAX,
            i <= n,
            m.wf(),
            handle_models(m@) == handles_of(files, head@, i as nat),
        decreases n - i,
    {
        let ghost before = m@;
        if let Some(sha) = head.get(series.key_at(i).as_str()) {
            let file: u32 = i as u32;
            let key = handle_key(file, sha.as_str());
            m.put(key.as_str(), FileHandle { file, blob_sha: sha.clone() });
            assert(handle_models(m@) =~= handle_models(before).insert(key@, (file, sha@)));
        }
        i = i + 1;
    }
    m
}

/// Each handle with the path of its file.
pub open spec fn paths_of(
    handles: Map<Seq<char>, (u32, Seq<char>)>,
    files: Seq<Seq<char>>,
) -> Map<Seq<char>, Seq<char>> {
    handles.map_values(|h: (u32, Seq<char>)| files[h.0 as int])
}

/// Paths as values.
pub open spec fn path_models(m: Map<Seq<char>, String>) -> Map<Seq<char>, Seq<char>> {
    m.map_values(|p: String| p@)
}

/// Resolve every handle to the path of its file, so that a drill-down is a
/// lookup.
pub fn resolve_handles(
    handles: &SortedMap<FileHandle>,
    series: &SortedMap<FileSeries>,
) -> (r: SortedMap<String>)
    requires
        handles.wf(),
        series.wf(),
        forall|k: Seq<char>| #[trigger]
            handles@.contains_key(k) ==> handles@[k].file < series.key_seq().len(),
    ensures
        r.wf(),
        path_models(r@) == paths_of(handle_models(handles@), series.key_seq()),
{
    let ghost files = series.key_seq();
    let ghost want = paths_of(handle_models(handles@), files);
    let ghost keys = handles.key_seq();
    let mut m: SortedMap<String> = SortedMap::new();
    let n: usize = handles.len();
    let mut i: usize = 0;
    proof {
        handles.wf_keys();
    }
    while i < n
        invariant
            handles.wf(),
            series.wf(),
            files == series.key_seq(),
            keys == handles.key_seq(),
            n == keys.len(),
            i <= n,
            want == paths_of(handle_models(handles@), files),
            forall|k: Seq<char>| #[trigger]
                handles@.contains_key(k) ==> handles@[k].file < files.len(),
            m.wf(),
            forall|k: Seq<char>| #[trigger]
                m@.contains_key(k) ==> handles@.contains_key(k) && m@[k]@ == want[k],
            forall|j: int| 0 <= j < i ==> m@.contains_key(#[trigger] keys[j]),
        decreases n - i,
    {
        let h = handles.value_at(i);
        let key = handles.key_at(i);
        let path = series.key_at(h.file as usize);
        assert(handle_models(handles@)[key@] == (h.file, h.blob_sha@));
        m.put(key.as_str(), path.clone());
        i = i + 1;
    }
    proof {
        assert forall|k: Seq<char>| #[trigger] path_models(m@).contains_key(k)
            <==> want.contains_key(k) by {
            if handles@.contains_key(k) {
                assert(keys.contains(k));
                let j = keys.index_of(k);
                assert(m@.contains_key(keys[j]));
            }
        }
        assert(path_models(m@) =~= want);
    }
    m
}

/// A handle is called `file:` and the first twelve characters of the blob's sha,
/// or all of a shorter one.
pub proof fn handles_show_twelve_characters(sha: Seq<char>)
    ensures
        sha.len() >= 12 ==> handle_name(sha) == "file:"@ + sha.subrange(0, 12),
        sha.len() < 12 ==> handle_name(sha) == "file:"@ + sha,
{
    if sha.len() == 12 {
        assert(sha.subrange(0, 12) =~= sha);
    }
}

/// Of several files whose blobs have one name the last has the handle: a handle
/// never leads to an earlier file than one that it stands for.
pub proof fn last_file_has_the_handle(
    files: Seq<Seq<char>>,
    head: Map<Seq<char>, String>,
    n: nat,
    i: int,
)
    requires
        0 <= i < n <= files.len(),
        files.len() <= u32::MAX,
        head.contains_key(files[i]),
    ensures
        handles_of(files, head, n).contains_key(handle_name(head[files[i]]@)),
        handles_of(files, head, n)[handle_name(head[files[i]]@)].0 >= i,
    decreases n,
{
    if i < n - 1 {
        last_file_has_the_handle(files, head, (n - 1) as nat, i);
    }
}

/// The path of a handle is that of its own file, which the head has under a
/// blob of that name.
pub proof fn handles_resolve_to_their_files(
    files: Seq<Seq<char>>,
    head: Map<Seq<char>, String>,
    key: Seq<char>,
)
    requires
        files.len() <= u32::MAX,
        handles_of(files, head, files.len()).contains_key(key),
    ensures
        ({
            let handles = handles_of(files, head, files.len());
            let path = paths_of(handles, files)[key];
            &&& paths_of(handles, files).contains_key(key)
            &&& path == files[handles[key].0 as int]
            &&& head.contains_key(path)
            &&& head[path]@ == handles[key].1
            &&& handle_name(head[path]@) == key
        }),
{
    handles_lead_to_files(files, head, files.len(), key);
}

/// As values, a handle is its file's number and its blob, and a path its text,
/// each under the same name.
pub proof fn handles_are_own_fields(
    handles: Map<Seq<char>, FileHandle>,
    paths: Map<Seq<char>, String>,
    k: Seq<char>,
)
    ensures
        handle_models(handles).contains_key(k) <==> handles.contains_key(k),
        handles.contains_key(k) ==> handle_models(handles)[k] == (
            handles[k].file,
            handles[k].blob_sha@,
        ),
        path_models(paths).contains_key(k) <==> paths.contains_key(k),
        paths.contains_key(k) ==> path_models(paths)[k] == paths[k]@,
{
}

} // verus!
