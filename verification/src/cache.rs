//! The content-hash cache: a per-task fingerprint over the task name and the
//! bytes of its declared input files, and the set of zero-length marker files
//! (`<name>.<fingerprint>`) that records which fingerprints ran successfully.
//!
//! This type models the marker directory as data: the caller loads the
//! directory listing into it and mirrors every change back to disk.

use vstd::prelude::*;
use vstd::string::*;
use vstd::utf8::encode_utf8;

use crate::graph::lemma_push_no_dup;
use crate::graph::vec_contains_string;
use sha2::Digest;

verus! {

// ---------------------------------------------------------------------------
// Fingerprints
// ---------------------------------------------------------------------------

/// SHA-256 of the given bytes.
/// The digest is a pure function of the input, so it has a name and nothing
/// more; [`sha256_digest`] is the one place that computes it.
pub uninterp spec fn sha256_of(data: Seq<u8>) -> Seq<u8>;

/// Relies on `sha2::Sha256` (RustCrypto): the digest is a pure function of
/// the input bytes and is exactly 32 bytes long.
#[verifier::external_body]
fn sha256_digest(data: &Vec<u8>) -> (r: Vec<u8>)
    ensures
        r@ == sha256_of(data@),
        r@.len() == 32,
{
    let mut hasher = sha2::Sha256::new();
    hasher.update(data.as_slice());
    hasher.finalize().to_vec()
}

/// The lowercase hexadecimal digit for `n`.
pub open spec fn hex_digit(n: int) -> char {
    if n == 0 {
        '0'
    } else if n == 1 {
        '1'
    } else if n == 2 {
        '2'
    } else if n == 3 {
        '3'
    } else if n == 4 {
        '4'
    } else if n == 5 {
        '5'
    } else if n == 6 {
        '6'
    } else if n == 7 {
        '7'
    } else if n == 8 {
        '8'
    } else if n == 9 {
        '9'
    } else if n == 10 {
        'a'
    } else if n == 11 {
        'b'
    } else if n == 12 {
        'c'
    } else if n == 13 {
        'd'
    } else if n == 14 {
        'e'
    } else {
        'f'
    }
}

/// Lowercase hex encoding of `bytes[i..]`, high nibble first.
pub open spec fn hex_from(bytes: Seq<u8>, i: int) -> Seq<char>
    decreases bytes.len() - i,
{
    if i < 0 || i >= bytes.len() {
        Seq::empty()
    } else {
        seq![hex_digit(bytes[i] as int / 16), hex_digit(bytes[i] as int % 16)] + hex_from(bytes, i + 1)
    }
}

/// Lowercase hex encoding of `bytes`.
pub open spec fn hex_of(bytes: Seq<u8>) -> Seq<char> {
    hex_from(bytes, 0)
}

/// The lowercase hexadecimal digit for `n`, as a one-character string slice.
fn hex_digit_str(n: u8) -> (r: &'static str)
    requires
        n < 16,
    ensures
        r@ =~= seq![hex_digit(n as int)],
{
    proof {
        reveal_strlit("0");
        reveal_strlit("1");
        reveal_strlit("2");
        reveal_strlit("3");
        reveal_strlit("4");
        reveal_strlit("5");
        reveal_strlit("6");
        reveal_strlit("7");
        reveal_strlit("8");
        reveal_strlit("9");
        reveal_strlit("a");
        reveal_strlit("b");
        reveal_strlit("c");
        reveal_strlit("d");
        reveal_strlit("e");
        reveal_strlit("f");
    }
    match n {
        0 => "0",
        1 => "1",
        2 => "2",
        3 => "3",
        4 => "4",
        5 => "5",
        6 => "6",
        7 => "7",
        8 => "8",
        9 => "9",
        10 => "a",
        11 => "b",
        12 => "c",
        13 => "d",
        14 => "e",
        _ => "f",
    }
}

/// Encodes bytes as lowercase hex.
#[verifier::loop_isolation(false)]
pub fn to_hex(bytes: &Vec<u8>) -> (r: String)
    ensures
        r@ == hex_of(bytes@),
{
    let mut r = String::new();
    let n = bytes.len();
    for i in 0..n
        invariant
            r@ + hex_from(bytes@, i as int) == hex_of(bytes@),
    {
        let b = bytes[i];
        r.append(hex_digit_str(b / 16));
        r.append(hex_digit_str(b % 16));
    }
    r
}

/// What a missing input file contributes to the fingerprint.
pub open spec fn sentinel_bytes() -> Seq<u8> {
    encode_utf8("<file-not-found>"@)
}

/// Appends the missing-file sentinel to `data`.
fn append_sentinel(data: &mut Vec<u8>)
    ensures
        final(data)@ == old(data)@ + sentinel_bytes(),
{
    let s = "<file-not-found>";
    data.extend_from_slice(s.as_bytes());
}

/// The bytes that the input files from position `i` on contribute to the
/// fingerprint: the file's contents, or the sentinel where it is missing.
pub open spec fn input_bytes_from(inputs: Seq<Option<Seq<u8>>>, i: int) -> Seq<u8>
    decreases inputs.len() - i,
{
    if i < 0 || i >= inputs.len() {
        Seq::empty()
    } else {
        (match inputs[i] {
            Some(content) => content,
            None => sentinel_bytes(),
        }) + input_bytes_from(inputs, i + 1)
    }
}

/// The byte stream a task's fingerprint is computed over: the UTF-8 bytes of
/// its name, then each declared input in order.
pub open spec fn fingerprint_input(name: Seq<char>, inputs: Seq<Option<Seq<u8>>>) -> Seq<u8> {
    encode_utf8(name) + input_bytes_from(inputs, 0)
}

/// A task's fingerprint: a pure function of the task name and the bytes of
/// its declared input files at the moment of the call, nothing else.
pub open spec fn spec_fingerprint(name: Seq<char>, inputs: Seq<Option<Seq<u8>>>) -> Seq<char> {
    hex_of(sha256_of(fingerprint_input(name, inputs)))
}

// ---------------------------------------------------------------------------
// Marker names
// ---------------------------------------------------------------------------

/// The marker file name for a task and fingerprint: `<task>.<fp>`.
pub open spec fn marker_name(task: Seq<char>, fp: Seq<char>) -> Seq<char> {
    task + seq!['.'] + fp
}

/// `p` is a prefix of `s`.
pub open spec fn has_prefix(p: Seq<char>, s: Seq<char>) -> bool {
    p.len() <= s.len() && s.subrange(0, p.len() as int) == p
}

/// The marker set after a commit of `fp` for `task`: every marker of the
/// task's own family (`<task>.*`) is gone, and the new marker is present.
pub open spec fn commit_markers(m: Set<Seq<char>>, task: Seq<char>, fp: Seq<char>) -> Set<
    Seq<char>,
> {
    m.filter(|e: Seq<char>| !has_prefix(task + seq!['.'], e)).insert(marker_name(task, fp))
}

/// A fingerprint is fresh when its marker file exists.
pub open spec fn is_fresh(markers: Set<Seq<char>>, task: Seq<char>, fp: Seq<char>) -> bool {
    markers.contains(marker_name(task, fp))
}

/// Right after a commit, exactly the committed fingerprint is fresh for the
/// task: the new marker exists, and no other fingerprint of the same task has
/// one.
pub proof fn lemma_commit_establishes_freshness(
    m: Set<Seq<char>>,
    task: Seq<char>,
    fp: Seq<char>,
    other: Seq<char>,
)
    ensures
        is_fresh(commit_markers(m, task, fp), task, fp),
        other != fp ==> !is_fresh(commit_markers(m, task, fp), task, other),
{
    let family = task + seq!['.'];
    assert(commit_markers(m, task, fp).contains(marker_name(task, fp)));
    if other != fp && commit_markers(m, task, fp).contains(marker_name(task, other)) {
        assert(marker_name(task, other) != marker_name(task, fp)) by {
            let a = marker_name(task, other);
            let b = marker_name(task, fp);
            if a == b {
                assert(other =~= a.subrange(task.len() as int + 1, a.len() as int));
                assert(fp =~= b.subrange(task.len() as int + 1, b.len() as int));
            }
        }
        assert(has_prefix(family, marker_name(task, other))) by {
            assert(marker_name(task, other).subrange(0, family.len() as int) =~= family);
        }
        assert(false);
    }
}

// ---------------------------------------------------------------------------
// The cache
// ---------------------------------------------------------------------------

/// Whether `p` is a prefix of `s`, character by character.
pub fn str_has_prefix(s: &str, p: &str) -> (b: bool)
    ensures
        b == has_prefix(p@, s@),
{
    let sl = s.unicode_len();
    let pl = p.unicode_len();
    if pl > sl {
        return false;
    }
    for i in 0..pl
        invariant
            pl == p@.len(),
            sl == s@.len(),
            pl <= sl,
            forall|j: int| 0 <= j < i ==> s@[j] == p@[j],
    {
        if s.get_char(i) != p.get_char(i) {
            assert(s@.subrange(0, pl as int)[i as int] != p@[i as int]);
            return false;
        }
    }
    proof {
        assert(s@.subrange(0, pl as int) =~= p@);
    }
    true
}

/// Builds the marker file name `<task>.<fp>`.
pub fn marker_string(task_name: &str, hash: &str) -> (r: String)
    ensures
        r@ == marker_name(task_name@, hash@),
{
    proof {
        reveal_strlit(".");
    }
    let mut r = task_name.to_owned();
    r.append(".");
    r.append(hash);
    proof {
        assert(r@ =~= marker_name(task_name@, hash@));
    }
    r
}

/// The model of the on-disk marker directory: its path and the marker file
/// names it holds. The holder keeps it in step with the directory.
pub struct TaskCache {
    cache_dir: String,
    entries: Vec<String>,
}

impl TaskCache {
    /// The marker file names, as a set.
    pub closed spec fn markers(self) -> Set<Seq<char>> {
        self.entries.deep_view().to_set()
    }

    /// The cache directory path.
    pub closed spec fn dir(self) -> Seq<char> {
        self.cache_dir@
    }

    pub closed spec fn wf(self) -> bool {
        self.entries.deep_view().no_duplicates()
    }

    /// An empty cache model over the well-known directory `.rush-cache`.
    pub fn new() -> (c: TaskCache)
        ensures
            c.wf(),
            c.markers() == Set::<Seq<char>>::empty(),
            c.dir() == ".rush-cache"@,
    {
        let c = TaskCache { cache_dir: ".rush-cache".to_owned(), entries: Vec::new() };
        proof {
            assert(c.entries.deep_view() =~= Seq::<Seq<char>>::empty());
            assert(c.markers() =~= Set::<Seq<char>>::empty());
        }
        c
    }

    /// A cache model holding the given marker file names (as read from the
    /// cache directory); repeated names are kept once.
    #[verifier::loop_isolation(false)]
    pub fn from_entries(entries: Vec<String>) -> (c: TaskCache)
        ensures
            c.wf(),
            c.markers() == entries.deep_view().to_set(),
            c.dir() == ".rush-cache"@,
    {
        let mut kept: Vec<String> = Vec::new();
        let n = entries.len();
        for i in 0..n
            invariant
                kept.deep_view().no_duplicates(),
                forall|x: Seq<char>|
                    #[trigger] kept.deep_view().contains(x) == entries.deep_view().subrange(
                        0,
                        i as int,
                    ).contains(x),
        {
            let ghost kd = kept.deep_view();
            if !vec_contains_string(&kept, &entries[i]) {
                kept.push(entries[i].clone());
                proof {
                    assert(kept.deep_view() =~= kd.push(entries.deep_view()[i as int]));
                    lemma_push_no_dup(kd, entries.deep_view()[i as int]);
                }
            }
            proof {
                let e = entries.deep_view()[i as int];
                let pre = entries.deep_view().subrange(0, i as int);
                let cur = entries.deep_view().subrange(0, i + 1 as int);
                assert(cur =~= pre.push(e));
                assert forall|x: Seq<char>| #[trigger] kept.deep_view().contains(x)
                    == cur.contains(x) by {
                    vstd::seq_lib::lemma_seq_contains_after_push(pre, e, x);
                    if kept.deep_view() != kd {
                        vstd::seq_lib::lemma_seq_contains_after_push(kd, e, x);
                    }
                }
            }
        }
        let c = TaskCache { cache_dir: ".rush-cache".to_owned(), entries: kept };
        proof {
            assert(entries.deep_view().subrange(0, entries.deep_view().len() as int) =~= entries
                .deep_view());
            assert(c.markers() =~= entries.deep_view().to_set());
        }
        c
    }

    /// The cache directory path, for the holder that mirrors the model to
    /// disk.
    pub fn dir_path(&self) -> (r: &str)
        ensures
            r@ == self.dir(),
    {
        self.cache_dir.as_str()
    }

    /// The marker file names, for the holder that mirrors the model to disk.
    pub fn marker_entries(&self) -> (r: &Vec<String>)
        ensures
            r.deep_view().to_set() == self.markers(),
    {
        &self.entries
    }

    /// The fingerprint of a task: lowercase hex of the SHA-256 digest over
    /// the task name's UTF-8 bytes followed by each declared input, in
    /// declaration order — the file's bytes where it exists, a fixed sentinel
    /// where it does not.
    #[verifier::loop_isolation(false)]
    pub fn compute_task_hash(
        &self,
        task_name: &str,
        cache_inputs: &Vec<Option<Vec<u8>>>,
    ) -> (r: String)
        ensures
            r@ == spec_fingerprint(task_name@, cache_inputs.deep_view()),
    {
        let mut data: Vec<u8> = Vec::new();
        data.extend_from_slice(task_name.as_bytes());
        let ghost iv = cache_inputs.deep_view();
        let n = cache_inputs.len();
        for i in 0..n
            invariant
                data@ + input_bytes_from(iv, i as int) == fingerprint_input(task_name@, iv),
        {
            match &cache_inputs[i] {
                Some(content) => {
                    data.extend_from_slice(content.as_slice());
                    proof {
                        assert(iv[i as int] == Some(cache_inputs@[i as int].unwrap().deep_view()));
                    }
                },
                None => {
                    append_sentinel(&mut data);
                    proof {
                        assert(iv[i as int] is None);
                    }
                },
            }
        }
        proof {
            assert(data@ =~= fingerprint_input(task_name@, iv));
        }
        let digest = sha256_digest(&data);
        to_hex(&digest)
    }

    /// Whether the marker `<task>.<fp>` is present in the model.
    pub fn is_cached(&self, task_name: &str, hash: &str) -> (b: bool)
        ensures
            b == is_fresh(self.markers(), task_name@, hash@),
    {
        let target = marker_string(task_name, hash);
        let found = vec_contains_string(&self.entries, &target);
        proof {
            if found {
                let j = choose|j: int|
                    0 <= j < self.entries.deep_view().len() && self.entries.deep_view()[j]
                        == target@;
                assert(self.markers().contains(target@));
            }
        }
        found
    }

    /// Commits a fingerprint: drops every marker of the task's own family
    /// (`<task>.*`) and records `<task>.<hash>`. The caller mirrors the same
    /// two steps onto the cache directory.
    #[verifier::loop_isolation(false)]
    pub fn mark_cached(&mut self, task_name: &str, hash: &str)
        requires
            old(self).wf(),
        ensures
            final(self).wf(),
            final(self).markers() == commit_markers(old(self).markers(), task_name@, hash@),
            final(self).dir() == old(self).dir(),
    {
        proof {
            reveal_strlit(".");
        }
        let mut family = task_name.to_owned();
        family.append(".");
        proof {
            assert(family@ =~= task_name@ + seq!['.']);
        }
        let mut kept: Vec<String> = Vec::new();
        let n = self.entries.len();
        for i in 0..n
            invariant
                kept.deep_view().no_duplicates(),
                forall|x: Seq<char>|
                    #[trigger] kept.deep_view().contains(x) == (self.entries.deep_view().subrange(
                        0,
                        i as int,
                    ).contains(x) && !has_prefix(family@, x)),
        {
            let ghost kd = kept.deep_view();
            let keep = !str_has_prefix(self.entries[i].as_str(), family.as_str());
            if keep && !vec_contains_string(&kept, &self.entries[i]) {
                kept.push(self.entries[i].clone());
                proof {
                    assert(kept.deep_view() =~= kd.push(self.entries.deep_view()[i as int]));
                    lemma_push_no_dup(kd, self.entries.deep_view()[i as int]);
                }
            }
            proof {
                let ev = self.entries.deep_view();
                let e = ev[i as int];
                let pre = ev.subrange(0, i as int);
                let cur = ev.subrange(0, i + 1 as int);
                assert(cur =~= pre.push(e));
                assert forall|x: Seq<char>| #[trigger] kept.deep_view().contains(x) == (
                cur.contains(x) && !has_prefix(family@, x)) by {
                    vstd::seq_lib::lemma_seq_contains_after_push(pre, e, x);
                    if kept.deep_view() != kd {
                        vstd::seq_lib::lemma_seq_contains_after_push(kd, e, x);
                    }
                }
            }
        }
        let marker = marker_string(task_name, hash);
        proof {
            assert(has_prefix(family@, marker@)) by {
                assert(marker@.subrange(0, family@.len() as int) =~= family@);
            }
            assert(!kept.deep_view().contains(marker@));
            lemma_push_no_dup(kept.deep_view(), marker@);
        }
        let ghost kd2 = kept.deep_view();
        kept.push(marker);
        self.entries = kept;
        proof {
            assert(self.entries.deep_view() =~= kd2.push(marker_name(task_name@, hash@)));
            assert forall|x: Seq<char>| #[trigger] self.markers().contains(x) == commit_markers(
                old(self).markers(),
                task_name@,
                hash@,
            ).contains(x) by {
                let full = old(self).entries.deep_view();
                assert(full.subrange(0, full.len() as int) =~= full);
                vstd::seq_lib::lemma_seq_contains_after_push(
                    kd2,
                    marker_name(task_name@, hash@),
                    x,
                );
            }
            assert(self.markers() =~= commit_markers(old(self).markers(), task_name@, hash@));
        }
    }

    /// Forgets every marker; the caller deletes the cache directory to match.
    pub fn clear(&mut self)
        ensures
            final(self).wf(),
            final(self).markers() == Set::<Seq<char>>::empty(),
            final(self).dir() == old(self).dir(),
    {
        self.entries = Vec::new();
        proof {
            assert(self.entries.deep_view() =~= Seq::<Seq<char>>::empty());
            assert(self.markers() =~= Set::<Seq<char>>::empty());
        }
    }
}

} // verus!
