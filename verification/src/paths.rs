//! Paths within a data directory.

use vstd::prelude::*;

use crate::text::{chars_of, push_decimal, push_text, string_of};

verus! {

/// The path `name` within the directory `base`. An absolute `name` stands for itself.
pub open spec fn joined(base: Seq<char>, name: Seq<char>) -> Seq<char> {
    if name.len() > 0 && name[0] == '/' {
        name
    } else if base.len() == 0 || base.last() == '/' {
        base + name
    } else {
        base.push('/') + name
    }
}

/// The path `name` within the directory `base`.
pub fn join(base: &str, name: &str) -> (path: String)
    ensures
        path@ == joined(base@, name@),
{
    let first: Vec<char> = chars_of(base);
    let second: Vec<char> = chars_of(name);
    let mut text: Vec<char> = Vec::new();
    if second.len() == 0 || second[0] != '/' {
        push_text(&mut text, base);
        if first.len() > 0 && first[first.len() - 1] != '/' {
            text.push('/');
        }
    }
    push_text(&mut text, name);
    assert(text@ =~= joined(base@, name@));
    string_of(text.as_slice())
}

pub open spec fn staged_text(root: Seq<char>, pack_id: Seq<char>) -> Seq<char> {
    joined(joined(root, "tmp"@), pack_id + ".part"@)
}

/// Where the archive of a pack is kept until it is imported.
pub fn staged_path(root: &str, pack_id: &str) -> (path: String)
    ensures
        path@ == staged_text(root@, pack_id@),
{
    let mut name: Vec<char> = Vec::new();
    push_text(&mut name, pack_id);
    push_text(&mut name, ".part");
    assert(name@ =~= pack_id@ + ".part"@);
    let file: String = string_of(name.as_slice());
    let directory: String = join(root, "tmp");
    join(directory.as_str(), file.as_str())
}

pub open spec fn index_path_text(root: Seq<char>, version: u32) -> Seq<char> {
    joined(
        joined(root, "indexes"@),
        "mania-v"@ + crate::text::decimal(version as nat) + ".buckets"@,
    )
}

/// Where the bucket index of a mania dataset is kept.
pub fn index_path(root: &str, version: u32) -> (path: String)
    ensures
        path@ == index_path_text(root@, version),
{
    let mut name: Vec<char> = Vec::new();
    push_text(&mut name, "mania-v");
    push_decimal(&mut name, version as u64);
    push_text(&mut name, ".buckets");
    assert(name@ =~= "mania-v"@ + crate::text::decimal(version as nat) + ".buckets"@);
    let file: String = string_of(name.as_slice());
    let directory: String = join(root, "indexes");
    join(directory.as_str(), file.as_str())
}

/// A path is that of the staged archive of one pack only: packs of different names do not share
/// an archive.
pub proof fn law_staged_archives_are_apart(root: Seq<char>, left: Seq<char>, right: Seq<char>)
    requires
        left.len() > 0 ==> left[0] != '/',
        right.len() > 0 ==> right[0] != '/',
        staged_text(root, left) == staged_text(root, right),
    ensures
        left == right,
{
    let base = joined(root, "tmp"@);
    let before = if base.len() == 0 || base.last() == '/' {
        base
    } else {
        base.push('/')
    };
    lemma_part_is_relative(left);
    lemma_part_is_relative(right);
    lemma_same_end(before, left + ".part"@, right + ".part"@);
    lemma_same_start(left, right, ".part"@);
}

proof fn lemma_part_is_relative(pack_id: Seq<char>)
    requires
        pack_id.len() > 0 ==> pack_id[0] != '/',
    ensures
        (pack_id + ".part"@)[0] != '/',
{
    reveal_strlit(".part");
    if pack_id.len() == 0 {
        assert((pack_id + ".part"@)[0] == '.');
    }
}

proof fn lemma_same_end(before: Seq<char>, left: Seq<char>, right: Seq<char>)
    requires
        before + left == before + right,
    ensures
        left == right,
{
    assert(left =~= (before + left).skip(before.len() as int));
    assert(right =~= (before + right).skip(before.len() as int));
}

proof fn lemma_same_start(left: Seq<char>, right: Seq<char>, after: Seq<char>)
    requires
        left + after == right + after,
    ensures
        left == right,
{
    assert((left + after).len() == left.len() + after.len());
    assert((right + after).len() == right.len() + after.len());
    assert(left =~= (left + after).take(left.len() as int));
    assert(right =~= (right + after).take(right.len() as int));
}

/// Where files are: beneath the directory that they are in, with one slash between. An absolute
/// name stands for itself.
pub proof fn law_joined_paths(base: Seq<char>, name: Seq<char>)
    ensures
        name.len() > 0 && name[0] == '/' ==> joined(base, name) == name,
        (name.len() == 0 || name[0] != '/') && base.len() > 0 && base.last() != '/' ==> joined(
            base,
            name,
        ) == base + seq!['/'] + name,
        (name.len() == 0 || name[0] != '/') && (base.len() == 0 || base.last() == '/') ==> joined(
            base,
            name,
        ) == base + name,
{
    assert(base.push('/') + name =~= base + seq!['/'] + name);
}

/// Where downloaded archives and mania indexes are kept beneath a data directory.
pub proof fn law_files_of_a_data_directory(root: Seq<char>, pack_id: Seq<char>, version: u32)
    requires
        root.len() > 0,
        root.last() != '/',
        pack_id.len() > 0,
        pack_id[0] != '/',
    ensures
        staged_text(root, pack_id) == root + "/tmp/"@ + pack_id + ".part"@,
        index_path_text(root, version) == root + "/indexes/mania-v"@ + crate::text::decimal(
            version as nat,
        ) + ".buckets"@,
{
    reveal_strlit("tmp");
    reveal_strlit("/tmp/");
    reveal_strlit(".part");
    reveal_strlit("indexes");
    reveal_strlit("mania-v");
    reveal_strlit("/indexes/mania-v");
    assert("tmp"@[0] == 't');
    assert("tmp"@[2] == 'p');
    let tmp = joined(root, "tmp"@);
    assert(tmp =~= root + seq!['/'] + "tmp"@);
    assert(tmp.last() == 'p');
    assert((pack_id + ".part"@)[0] == pack_id[0]);
    assert(seq!['/'] + "tmp"@ + seq!['/'] =~= "/tmp/"@);
    assert(staged_text(root, pack_id) =~= root + (seq!['/'] + "tmp"@ + seq!['/']) + pack_id
        + ".part"@);
    assert("indexes"@[0] == 'i');
    assert("indexes"@[6] == 's');
    let indexes = joined(root, "indexes"@);
    assert(indexes =~= root + seq!['/'] + "indexes"@);
    assert(indexes.last() == 's');
    let name = "mania-v"@ + crate::text::decimal(version as nat) + ".buckets"@;
    assert(name[0] == 'm');
    assert(seq!['/'] + "indexes"@ + seq!['/'] + "mania-v"@ =~= "/indexes/mania-v"@);
    assert(index_path_text(root, version) =~= root + (seq!['/'] + "indexes"@ + seq!['/']
        + "mania-v"@) + crate::text::decimal(version as nat) + ".buckets"@);
}

} // verus!
