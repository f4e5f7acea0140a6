//! Stable storage: under which names a directory holds the values of keys,
//! and in which steps a value is put so that a crash at any point leaves the
//! old value or the new one.

use crate::ascii::{all_ascii, ascii_chars, ascii_string, lemma_ascii_chars_injective};
use sha2::{Digest, Sha256};
use vstd::prelude::*;

verus! {

/// The SHA-256 of `name` in upper-case hexadecimal digits, as ASCII bytes.
pub uninterp spec fn sha256_hex(name: Seq<char>) -> Seq<u8>;

/// Number of hexadecimal digits of a SHA-256.
pub const HASH_NAME_LEN: usize = 64;

/// An upper-case hexadecimal digit in ASCII.
pub open spec fn is_upper_hex(b: u8) -> bool {
    (48 <= b <= 57) || (65 <= b <= 70)
}

/// `Sha256::new`, `update` and `finalize`, formatted with `{:X}`: the hash of
/// `name` as 64 upper-case hexadecimal digits.
#[verifier::external_body]
fn hash_hex(name: &str) -> (r: Vec<u8>)
    ensures
        r@ == sha256_hex(name@),
        r@.len() == HASH_NAME_LEN,
        forall|i: int| 0 <= i < r@.len() ==> is_upper_hex(#[trigger] r@[i]),
{
    let mut sha256 = Sha256::new();
    sha256.update(name);
    let hash = sha256.finalize();
    format!("{:X}", hash).into_bytes()
}

/// The name of the file that holds the value of `key`: the 64 digits of its
/// hash.
pub open spec fn blob_name(key: Seq<char>) -> Seq<u8> {
    Seq::new(HASH_NAME_LEN as nat, |i: int| sha256_hex(key)[i])
}

/// The name of the file in which a new value of `key` is written before it
/// takes the place of the old one.
pub open spec fn tmp_name(key: Seq<char>) -> Seq<u8> {
    seq![116u8, 109u8, 112u8, 95u8] + blob_name(key)
}

/// The name of the file that holds the value of `key`.
pub fn get_hash(name: &str) -> (r: String)
    ensures
        r@ == ascii_chars(blob_name(name@)),
{
    let digits = hash_hex(name);
    assert(digits@ =~= blob_name(name@));
    assert(all_ascii(digits@)) by {
        assert forall|i: int| 0 <= i < digits@.len() implies digits@[i] < 128 by {
            assert(is_upper_hex(digits@[i]));
        }
    }
    ascii_string(digits)
}

/// The name of the file in which a new value of `key` is written first.
pub fn get_tmp_name(name: &str) -> (r: String)
    ensures
        r@ == ascii_chars(tmp_name(name@)),
{
    let digits = hash_hex(name);
    let mut bytes: Vec<u8> = Vec::new();
    bytes.push(116u8);
    bytes.push(109u8);
    bytes.push(112u8);
    bytes.push(95u8);
    bytes.extend_from_slice(digits.as_slice());
    assert(digits@ =~= blob_name(name@));
    assert(bytes@ =~= tmp_name(name@));
    assert(all_ascii(bytes@)) by {
        assert forall|i: int| 0 <= i < bytes@.len() implies bytes@[i] < 128 by {
            if i >= 4 {
                assert(is_upper_hex(digits@[i - 4]));
            }
        }
    }
    ascii_string(bytes)
}

/// One step on the directory of a store.
pub enum StorageOp {
    /// Create the file, or empty it, and write the data.
    WriteFile { name: String, data: Vec<u8> },
    /// Wait until the data of the file is on disk.
    SyncFile { name: String },
    /// Give the file a new name, in place of any file of that name, in one
    /// step.
    Rename { from: String, to: String },
    /// Wait until the names in the directory are on disk.
    SyncDir,
}

/// [`StorageOp`] with names and data as sequences.
pub enum StorageOpView {
    WriteFile { name: Seq<char>, data: Seq<u8> },
    SyncFile { name: Seq<char> },
    Rename { from: Seq<char>, to: Seq<char> },
    SyncDir,
}

impl View for StorageOp {
    type V = StorageOpView;

    open spec fn view(&self) -> StorageOpView {
        match self {
            StorageOp::WriteFile { name, data } => StorageOpView::WriteFile {
                name: name@,
                data: data@,
            },
            StorageOp::SyncFile { name } => StorageOpView::SyncFile { name: name@ },
            StorageOp::Rename { from, to } => StorageOpView::Rename { from: from@, to: to@ },
            StorageOp::SyncDir => StorageOpView::SyncDir,
        }
    }
}

/// The steps of a plan, each as its view.
pub open spec fn plan_view(plan: Seq<StorageOp>) -> Seq<StorageOpView> {
    Seq::new(plan.len(), |i: int| plan[i]@)
}

/// The steps that put `value` under `key`: write it to the temporary file,
/// wait for the file, rename it over the file of the key, wait for the
/// directory.
pub open spec fn put_steps(key: Seq<char>, value: Seq<u8>) -> Seq<StorageOpView> {
    seq![
        StorageOpView::WriteFile { name: ascii_chars(tmp_name(key)), data: value },
        StorageOpView::SyncFile { name: ascii_chars(tmp_name(key)) },
        StorageOpView::Rename {
            from: ascii_chars(tmp_name(key)),
            to: ascii_chars(blob_name(key)),
        },
        StorageOpView::SyncDir,
    ]
}

/// The steps that put `value` under `key`, to be carried out in their order.
pub fn put_plan(key: &str, value: &[u8]) -> (r: Vec<StorageOp>)
    ensures
        plan_view(r@) == put_steps(key@, value@),
{
    let mut data: Vec<u8> = Vec::new();
    data.extend_from_slice(value);
    assert(data@ =~= value@);
    let mut plan: Vec<StorageOp> = Vec::new();
    plan.push(StorageOp::WriteFile { name: get_tmp_name(key), data });
    plan.push(StorageOp::SyncFile { name: get_tmp_name(key) });
    plan.push(StorageOp::Rename { from: get_tmp_name(key), to: get_hash(key) });
    plan.push(StorageOp::SyncDir);
    assert(plan_view(plan@) =~= put_steps(key@, value@));
    plan
}

/// The files of a directory, by name.
pub type Directory = Map<Seq<char>, Seq<u8>>;

/// What a step makes of a directory.
pub open spec fn apply(dir: Directory, op: StorageOpView) -> Directory {
    match op {
        StorageOpView::WriteFile { name, data } => dir.insert(name, data),
        StorageOpView::Rename { from, to } => if dir.dom().contains(from) {
            dir.remove(from).insert(to, dir[from])
        } else {
            dir
        },
        StorageOpView::SyncFile { .. } => dir,
        StorageOpView::SyncDir => dir,
    }
}

/// What the first `done` steps of a plan make of a directory.
pub open spec fn apply_first(dir: Directory, plan: Seq<StorageOpView>, done: nat) -> Directory
    decreases done,
{
    if done == 0 || done > plan.len() {
        dir
    } else {
        apply(apply_first(dir, plan, (done - 1) as nat), plan[done - 1])
    }
}

/// The value that a directory holds for `key`.
pub open spec fn stored(dir: Directory, key: Seq<char>) -> Option<Seq<u8>> {
    if dir.dom().contains(ascii_chars(blob_name(key))) {
        Some(dir[ascii_chars(blob_name(key))])
    } else {
        None
    }
}

/// No temporary file has the name of the file of a key.
pub proof fn lemma_tmp_is_no_blob(key: Seq<char>, other: Seq<char>)
    ensures
        ascii_chars(tmp_name(key)) != ascii_chars(blob_name(other)),
{
    assert(ascii_chars(tmp_name(key)).len() == HASH_NAME_LEN + 4);
    assert(ascii_chars(blob_name(other)).len() == HASH_NAME_LEN);
}

/// A put is atomic: a crash after any number of its steps leaves, for its
/// key, the old value or the new one, and after all steps the new one. The
/// value of no other key changes.
pub proof fn lemma_put_is_atomic(
    dir: Directory,
    key: Seq<char>,
    value: Seq<u8>,
    done: nat,
    other: Seq<char>,
)
    requires
        done <= 4,
    ensures
        ({
            let after = apply_first(dir, put_steps(key, value), done);
            &&& stored(after, key) == stored(dir, key) || stored(after, key) == Some(value)
            &&& done >= 3 ==> stored(after, key) == Some(value)
            &&& done < 3 ==> stored(after, key) == stored(dir, key)
            &&& blob_name(other) != blob_name(key) ==> stored(after, other) == stored(dir, other)
        }),
{
    let plan = put_steps(key, value);
    let tmp = ascii_chars(tmp_name(key));
    let blob = ascii_chars(blob_name(key));
    lemma_tmp_is_no_blob(key, key);
    lemma_tmp_is_no_blob(key, other);
    if blob_name(other) != blob_name(key) {
        if ascii_chars(blob_name(other)) == blob {
            lemma_ascii_chars_injective(blob_name(other), blob_name(key));
        }
    }
    reveal_with_fuel(apply_first, 5);
    let d1 = apply_first(dir, plan, 1);
    let d2 = apply_first(dir, plan, 2);
    let d3 = apply_first(dir, plan, 3);
    let d4 = apply_first(dir, plan, 4);
    assert(d1 == dir.insert(tmp, value));
    assert(d2 == d1);
    assert(d3 == d1.remove(tmp).insert(blob, value));
    assert(d4 == d3);
}

/// A put leaves no temporary file behind, and no file but that of its key
/// and its temporary file is touched.
pub proof fn lemma_put_is_tidy(dir: Directory, key: Seq<char>, value: Seq<u8>, name: Seq<char>)
    ensures
        ({
            let after = apply_first(dir, put_steps(key, value), 4);
            &&& !after.dom().contains(ascii_chars(tmp_name(key)))
            &&& name != ascii_chars(tmp_name(key)) && name != ascii_chars(blob_name(key)) ==> (
            after.dom().contains(name) <==> dir.dom().contains(name)) && (dir.dom().contains(name)
                ==> after[name] == dir[name])
        }),
{
    let plan = put_steps(key, value);
    lemma_tmp_is_no_blob(key, key);
    reveal_with_fuel(apply_first, 5);
    let d1 = apply_first(dir, plan, 1);
    let d2 = apply_first(dir, plan, 2);
    let d3 = apply_first(dir, plan, 3);
    let d4 = apply_first(dir, plan, 4);
    assert(d2 == d1);
    assert(d4 == d3);
}

} // verus!
