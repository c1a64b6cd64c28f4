//! What a bucket listing means for the archive: which objects are archived, and under which
//! names.

use crate::plan::{distinct_ids, FileId, SourceFile};
use crate::text::{chars_of, strip_prefix};
use crate::zip_layout::FileInfo;
use vstd::hash_set::StringHashSet;
use vstd::prelude::*;
use vstd::string::StringExecFns;

verus! {

/// An object as the listing has it.
#[derive(Debug)]
pub struct ListedObject {
    pub key: Option<String>,
    pub size: Option<i64>,
}

/// The name that an object has in the archive: its key without the prefix. The prefix itself
/// has none, and neither has an object that is not under it.
pub open spec fn listed_name(prefix: Seq<char>, key: Seq<char>) -> Option<Seq<char>> {
    if prefix.is_prefix_of(key) && key.len() > prefix.len() {
        Some(key.skip(prefix.len() as int))
    } else {
        None
    }
}

/// Whether an object is archived: it has a key, a size, and a name under the prefix.
pub open spec fn is_archived(prefix: Seq<char>, object: ListedObject) -> bool {
    object.key is Some && object.size is Some && listed_name(prefix, object.key->Some_0@) is Some
}

/// The positions of the archived objects among the first `n`.
pub open spec fn archived(prefix: Seq<char>, objects: Seq<ListedObject>, n: nat) -> Seq<int>
    decreases n,
{
    if n == 0 {
        Seq::empty()
    } else if is_archived(prefix, objects[n - 1]) {
        archived(prefix, objects, (n - 1) as nat).push(n - 1)
    } else {
        archived(prefix, objects, (n - 1) as nat)
    }
}

/// The archived objects keep the order of the listing.
pub proof fn archived_keep_their_order(prefix: Seq<char>, objects: Seq<ListedObject>, n: nat)
    requires
        n <= objects.len(),
    ensures
        archived(prefix, objects, n).len() <= n,
        forall|i: int, j: int|
            0 <= i < j < archived(prefix, objects, n).len() ==> #[trigger] archived(
                prefix,
                objects,
                n,
            )[i] < #[trigger] archived(prefix, objects, n)[j],
        forall|i: int|
            0 <= i < archived(prefix, objects, n).len() ==> 0 <= #[trigger] archived(
                prefix,
                objects,
                n,
            )[i] < n && is_archived(prefix, objects[archived(prefix, objects, n)[i]]),
    decreases n,
{
    if n > 0 {
        archived_keep_their_order(prefix, objects, (n - 1) as nat);
    }
}

/// Where an object with something behind the prefix in its key stands among the archived.
proof fn lemma_archived_at(prefix: Seq<char>, objects: Seq<ListedObject>, i: int) -> (j: int)
    requires
        0 <= i < objects.len(),
        objects[i].key is Some,
        objects[i].size is Some,
        prefix.is_prefix_of(objects[i].key->Some_0@),
        objects[i].key->Some_0@.len() > prefix.len(),
    ensures
        0 <= j < archived(prefix, objects, objects.len()).len(),
        archived(prefix, objects, objects.len())[j] == i,
        prefix + listed_name(prefix, objects[i].key->Some_0@)->Some_0 == objects[i].key->Some_0@,
{
    let all = archived(prefix, objects, objects.len());
    let key = objects[i].key->Some_0@;
    let name = key.skip(prefix.len() as int);
    names_follow_the_prefix(prefix, name, key);
    assert(prefix + name =~= key);
    every_named_object_is_archived(prefix, objects, objects.len(), i);
    choose|j: int| 0 <= j < all.len() && all[j] == i
}

/// The name that an object has in the archive.
fn name_under(prefix: &str, key: &str) -> (name: Option<String>)
    ensures
        match name {
            Some(n) => listed_name(prefix@, key@) == Some(n@),
            None => listed_name(prefix@, key@) is None,
        },
{
    match strip_prefix(key, prefix) {
        Some(rest) => if rest.as_str().is_empty() {
            None
        } else {
            Some(rest)
        },
        None => None,
    }
}

/// The prefix under which the objects are listed: the one given, and a slash.
pub fn directory_prefix(files_prefix: &str) -> (prefix: String)
    ensures
        prefix@ == files_prefix@ + "/"@,
{
    let mut prefix: String = String::from_str(files_prefix);
    prefix.append("/");
    prefix
}

/// A file of the listing, for the object at position `k`.
pub open spec fn is_source_file(
    file: SourceFile,
    number: int,
    prefix: Seq<char>,
    object: ListedObject,
) -> bool {
    &&& file.id.0 == number
    &&& file.key == object.key->Some_0
    &&& file.name@ == listed_name(prefix, object.key->Some_0@)->Some_0
    &&& file.size == object.size->Some_0 as u64
}

/// The files to be archived, numbered in the order of the listing.
pub fn list_source_files(prefix: &str, objects: Vec<ListedObject>) -> (files: Vec<SourceFile>)
    requires
        objects@.len() <= u32::MAX,
    ensures
        files@.len() == archived(prefix@, objects@, objects@.len()).len(),
        forall|i: int|
            0 <= i < files@.len() ==> is_source_file(
                #[trigger] files@[i],
                i,
                prefix@,
                objects@[archived(prefix@, objects@, objects@.len())[i]],
            ),
        distinct_ids(files@),
{
    let ghost all = objects@;
    let mut files: Vec<SourceFile> = Vec::new();
    for object in it: objects
        invariant
            it.seq() == all,
            all.len() <= u32::MAX,
            files@.len() == archived(prefix@, all, it.index() as nat).len(),
            files@.len() <= it.index(),
            forall|i: int|
                0 <= i < files@.len() ==> is_source_file(
                    #[trigger] files@[i],
                    i,
                    prefix@,
                    all[archived(prefix@, all, it.index() as nat)[i]],
                ),
    {
        let ghost n = it.index();
        assert(object == all[n]);
        if let (Some(key), Some(size)) = (object.key, object.size) {
            if let Some(name) = name_under(prefix, key.as_str()) {
                let number: u32 = files.len() as u32;
                files.push(SourceFile { id: FileId(number), key, name, size: size as u64 });
            }
        }
    }
    files
}

/// An object to be archived, for the listed one.
pub open spec fn is_file_info(
    info: FileInfo,
    bucket: Seq<char>,
    prefix: Seq<char>,
    object: ListedObject,
) -> bool {
    &&& info.bucket_name@ == bucket
    &&& info.key == object.key->Some_0
    &&& info.name@ == listed_name(prefix, object.key->Some_0@)->Some_0
    &&& info.size == object.size->Some_0 as usize
}

/// The objects to be archived, in the order of the listing.
pub fn list_file_infos(bucket: &str, prefix: &str, objects: Vec<ListedObject>) -> (infos: Vec<
    FileInfo,
>)
    ensures
        infos@.len() == archived(prefix@, objects@, objects@.len()).len(),
        forall|i: int|
            0 <= i < infos@.len() ==> is_file_info(
                #[trigger] infos@[i],
                bucket@,
                prefix@,
                objects@[archived(prefix@, objects@, objects@.len())[i]],
            ),
{
    let ghost all = objects@;
    let mut infos: Vec<FileInfo> = Vec::new();
    for object in it: objects
        invariant
            it.seq() == all,
            infos@.len() == archived(prefix@, all, it.index() as nat).len(),
            forall|i: int|
                0 <= i < infos@.len() ==> is_file_info(
                    #[trigger] infos@[i],
                    bucket@,
                    prefix@,
                    all[archived(prefix@, all, it.index() as nat)[i]],
                ),
    {
        let ghost n = it.index();
        assert(object == all[n]);
        if let (Some(key), Some(size)) = (object.key, object.size) {
            if let Some(name) = name_under(prefix, key.as_str()) {
                infos.push(
                    FileInfo {
                        name,
                        bucket_name: String::from_str(bucket),
                        key,
                        size: size as usize,
                    },
                );
            }
        }
    }
    infos
}

/// The token with which the next page of a listing is asked for.
pub open spec fn next_token(is_truncated: Option<bool>, token: Option<String>) -> Option<String> {
    if is_truncated == Some(true) {
        token
    } else {
        None
    }
}

/// A listing goes on exactly where S3 says that there is more and how to ask for it, and with
/// the token that S3 gave.
pub proof fn listings_go_on_while_there_is_more(token: String)
    ensures
        next_token(Some(true), Some(token)) == Some(token),
        next_token(Some(true), None) is None,
        next_token(Some(false), Some(token)) is None,
        next_token(None, Some(token)) is None,
{
}

/// The token with which the next page of a listing is asked for. There is none where the
/// listing is complete, or S3 does not say how to go on.
pub fn next_page(is_truncated: Option<bool>, token: Option<String>) -> (next: Option<String>)
    ensures
        next == next_token(is_truncated, token),
        next == (if is_truncated == Some(true) {
            token
        } else {
            None
        }),
{
    match is_truncated {
        Some(true) => token,
        _ => None,
    }
}

/// The prefix with a slash at its end: one is added unless it is there.
pub open spec fn slash_ended(files_prefix: Seq<char>) -> Seq<char> {
    if files_prefix.len() > 0 && files_prefix.last() == '/' {
        files_prefix
    } else {
        files_prefix + "/"@
    }
}

/// The prefix with a slash at its end: one is added unless it is there.
pub fn slash_ended_prefix(files_prefix: &str) -> (prefix: String)
    ensures
        prefix@ == slash_ended(files_prefix@),
{
    let chars: Vec<char> = chars_of(files_prefix);
    if chars.len() > 0 && chars[chars.len() - 1] == '/' {
        String::from_str(files_prefix)
    } else {
        directory_prefix(files_prefix)
    }
}

/// Names, each once, in the order in which they came.
pub struct NameSet {
    pub names: Vec<String>,
    pub set: StringHashSet,
}

impl NameSet {
    /// The names as a set.
    pub open spec fn view(&self) -> Set<Seq<char>> {
        self.set@
    }

    /// The list holds the names of the set, each once.
    pub open spec fn wf(&self) -> bool {
        &&& forall|i: int| 0 <= i < self.names@.len() ==> self.set@.contains(
            #[trigger] self.names@[i]@,
        )
        &&& forall|name: Seq<char>| #[trigger]
            self.set@.contains(name) ==> exists|i: int|
                0 <= i < self.names@.len() && #[trigger] self.names@[i]@ == name
        &&& forall|i: int, j: int|
            0 <= i < j < self.names@.len() ==> #[trigger] self.names@[i]@
                != #[trigger] self.names@[j]@
        &&& self.set@.finite()
        &&& self.set@.len() == self.names@.len()
    }

    /// No names.
    pub fn new() -> (names: NameSet)
        ensures
            names.wf(),
            names@ == Set::<Seq<char>>::empty(),
    {
        NameSet { names: Vec::new(), set: StringHashSet::new() }
    }

    /// Adds a name.
    pub fn insert(&mut self, name: String)
        requires
            old(self).wf(),
        ensures
            final(self).wf(),
            final(self)@ == old(self)@.insert(name@),
    {
        let ghost before = *self;
        let kept: String = name.clone();
        if self.set.insert(name) {
            self.names.push(kept);
            proof {
                let n = before.names@.len() as int;
                assert(self.names@[n]@ == name@);
                assert forall|other: Seq<char>| #[trigger]
                    self.set@.contains(other) implies exists|i: int|
                    0 <= i < self.names@.len() && #[trigger] self.names@[i]@ == other by {
                    if other != name@ {
                        assert(before.set@.contains(other));
                        let i = choose|i: int|
                            0 <= i < before.names@.len() && #[trigger] before.names@[i]@ == other;
                        assert(self.names@[i]@ == other);
                    }
                }
                assert forall|i: int, j: int|
                    0 <= i < j < self.names@.len() implies #[trigger] self.names@[i]@
                    != #[trigger] self.names@[j]@ by {
                    assert(before.set@.contains(before.names@[i]@));
                }
            }
        } else {
            assert(before.set@.insert(name@) =~= before.set@);
        }
    }

    /// How many names there are.
    pub fn len(&self) -> (count: usize)
        requires
            self.wf(),
        ensures
            count == self@.len(),
    {
        self.names.len()
    }
}

/// The names that the first `n` keys of a listing have under the prefix.
pub open spec fn names_listed(prefix: Seq<char>, keys: Seq<Option<String>>, n: nat) -> Set<
    Seq<char>,
>
    decreases n,
{
    if n == 0 {
        Set::empty()
    } else {
        let before = names_listed(prefix, keys, (n - 1) as nat);
        match keys[n - 1] {
            Some(key) => match listed_name(prefix, key@) {
                Some(name) => before.insert(name),
                None => before,
            },
            None => before,
        }
    }
}

/// Adds the names of a page of keys to those of the pages before.
pub fn add_listed_names(prefix: &str, keys: Vec<Option<String>>, names: &mut NameSet)
    requires
        old(names).wf(),
    ensures
        final(names).wf(),
        final(names)@ == old(names)@.union(names_listed(prefix@, keys@, keys@.len())),
{
    let ghost all = keys@;
    let ghost before = names@;
    assert(names@ =~= before.union(names_listed(prefix@, all, 0)));
    for key in it: keys
        invariant
            it.seq() == all,
            names.wf(),
            names@ == before.union(names_listed(prefix@, all, it.index() as nat)),
    {
        let ghost n = it.index();
        assert(key == all[n]);
        let ghost now = names@;
        if let Some(key) = key {
            if let Some(name) = name_under(prefix, key.as_str()) {
                names.insert(name);
            }
        }
        assert(names@ =~= before.union(names_listed(prefix@, all, (n + 1) as nat)));
    }
}

/// The names that the first `n` keys of a listing have under the prefix, in its order.
pub open spec fn names_in_order(prefix: Seq<char>, keys: Seq<Option<String>>, n: nat) -> Seq<
    Seq<char>,
>
    decreases n,
{
    if n == 0 {
        Seq::empty()
    } else {
        let before = names_in_order(prefix, keys, (n - 1) as nat);
        match keys[n - 1] {
            Some(key) => match listed_name(prefix, key@) {
                Some(name) => before.push(name),
                None => before,
            },
            None => before,
        }
    }
}

/// The names that the keys of a listing have under the prefix, in its order.
pub fn list_names(prefix: &str, keys: Vec<Option<String>>) -> (names: Vec<String>)
    ensures
        Seq::new(names@.len(), |i: int| names@[i]@) == names_in_order(
            prefix@,
            keys@,
            keys@.len(),
        ),
{
    let ghost all = keys@;
    let mut names: Vec<String> = Vec::new();
    assert(Seq::new(names@.len(), |i: int| names@[i]@) =~= names_in_order(prefix@, all, 0));
    for key in it: keys
        invariant
            it.seq() == all,
            Seq::new(names@.len(), |i: int| names@[i]@) == names_in_order(
                prefix@,
                all,
                it.index() as nat,
            ),
    {
        let ghost n = it.index();
        assert(key == all[n]);
        let ghost before = Seq::new(names@.len(), |i: int| names@[i]@);
        if let Some(key) = key {
            if let Some(name) = name_under(prefix, key.as_str()) {
                names.push(name);
                assert(Seq::new(names@.len(), |i: int| names@[i]@) =~= before.push(name@));
            }
        }
        assert(Seq::new(names@.len(), |i: int| names@[i]@) =~= names_in_order(
            prefix@,
            all,
            (n + 1) as nat,
        ));
    }
    names
}

/// A key is named by what follows the prefix in it: every name under the prefix is found
/// again, and nothing else has one.
pub proof fn names_follow_the_prefix(prefix: Seq<char>, name: Seq<char>, key: Seq<char>)
    ensures
        name.len() > 0 ==> listed_name(prefix, prefix + name) == Some(name),
        listed_name(prefix, prefix) is None,
        listed_name(prefix, key) matches Some(found) ==> key == prefix + found && found.len() > 0,
        listed_name(prefix, key) is None && key.len() > prefix.len() ==> key.take(
            prefix.len() as int,
        ) != prefix,
{
    assert((prefix + name).skip(prefix.len() as int) =~= name);
    assert(prefix.is_prefix_of(prefix + name)) by {
        assert((prefix + name).take(prefix.len() as int) =~= prefix);
    }
    if prefix.is_prefix_of(key) {
        assert(key =~= prefix + key.skip(prefix.len() as int));
    }
}

/// Nothing is left out: an object is archived exactly where it has a key, a size, and
/// something behind the prefix in its key.
pub proof fn every_named_object_is_archived(
    prefix: Seq<char>,
    objects: Seq<ListedObject>,
    n: nat,
    i: int,
)
    requires
        n <= objects.len(),
        0 <= i < n,
    ensures
        archived(prefix, objects, n).contains(i) <==> {
            &&& objects[i].key is Some
            &&& objects[i].size is Some
            &&& exists|name: Seq<char>|
                name.len() > 0 && #[trigger] (prefix + name) == objects[i].key->Some_0@
        },
    decreases n,
{
    let all = archived(prefix, objects, n);
    let before = archived(prefix, objects, (n - 1) as nat);
    let object = objects[i];
    if i < n - 1 {
        every_named_object_is_archived(prefix, objects, (n - 1) as nat, i);
        if before.contains(i) {
            let at = choose|at: int| 0 <= at < before.len() && before[at] == i;
            assert(all[at] == i);
        }
        if all.contains(i) {
            let at = choose|at: int| 0 <= at < all.len() && all[at] == i;
            assert(before[at] == i);
        }
    } else {
        archived_keep_their_order(prefix, objects, (n - 1) as nat);
        if is_archived(prefix, object) {
            assert(all[all.len() - 1] == i);
            let key = object.key->Some_0@;
            names_follow_the_prefix(prefix, Seq::empty(), key);
            assert(prefix + key.skip(prefix.len() as int) == key);
        } else if all.contains(i) {
            let at = choose|at: int| 0 <= at < all.len() && all[at] == i;
            assert(before[at] < n - 1);
        }
        if object.key is Some && object.size is Some {
            let key = object.key->Some_0@;
            if exists|name: Seq<char>| name.len() > 0 && #[trigger] (prefix + name) == key {
                let name = choose|name: Seq<char>|
                    name.len() > 0 && #[trigger] (prefix + name) == key;
                names_follow_the_prefix(prefix, name, key);
            }
        }
    }
}

/// A listing of two pages is archived as its pages are, one behind the other.
pub proof fn pages_are_archived_alike(
    prefix: Seq<char>,
    first: Seq<ListedObject>,
    second: Seq<ListedObject>,
    n: nat,
)
    requires
        n <= second.len(),
    ensures
        archived(prefix, first + second, first.len() + n) == archived(
            prefix,
            first,
            first.len(),
        ) + archived(prefix, second, n).map_values(|i: int| i + first.len()),
    decreases n,
{
    let both = first + second;
    if n == 0 {
        lemma_archived_prefix(prefix, first, both, first.len());
        assert(archived(prefix, second, 0).map_values(|i: int| i + first.len())
            =~= Seq::<int>::empty());
        assert(archived(prefix, both, first.len()) =~= archived(prefix, first, first.len())
            + archived(prefix, second, 0).map_values(|i: int| i + first.len()));
    } else {
        pages_are_archived_alike(prefix, first, second, (n - 1) as nat);
        assert(both[first.len() + n - 1] == second[n - 1]);
        let shift = |i: int| i + first.len();
        assert(archived(prefix, both, first.len() + n) =~= archived(prefix, first, first.len())
            + archived(prefix, second, n).map_values(shift));
    }
}

proof fn lemma_archived_prefix(
    prefix: Seq<char>,
    a: Seq<ListedObject>,
    b: Seq<ListedObject>,
    n: nat,
)
    requires
        n <= a.len(),
        n <= b.len(),
        forall|i: int| 0 <= i < n ==> a[i] == b[i],
    ensures
        archived(prefix, a, n) == archived(prefix, b, n),
    decreases n,
{
    if n > 0 {
        lemma_archived_prefix(prefix, a, b, (n - 1) as nat);
    }
}

/// The names of a listing are what follows the prefix in its keys, all of them and nothing
/// else.
pub proof fn listed_names_are_the_named_keys(
    prefix: Seq<char>,
    keys: Seq<Option<String>>,
    n: nat,
    name: Seq<char>,
)
    requires
        n <= keys.len(),
    ensures
        names_listed(prefix, keys, n).contains(name) <==> name.len() > 0 && exists|i: int|
            0 <= i < n && #[trigger] keys[i] is Some && keys[i]->Some_0@ == prefix + name,
        names_in_order(prefix, keys, n).contains(name) <==> name.len() > 0 && exists|i: int|
            0 <= i < n && #[trigger] keys[i] is Some && keys[i]->Some_0@ == prefix + name,
    decreases n,
{
    if n > 0 {
        let m = (n - 1) as nat;
        listed_names_are_the_named_keys(prefix, keys, m, name);
        let before = names_in_order(prefix, keys, m);
        let all = names_in_order(prefix, keys, n);
        if before.contains(name) {
            let at = choose|at: int| 0 <= at < before.len() && before[at] == name;
            assert(all[at] == name);
        }
        if let Some(key) = keys[n - 1] {
            names_follow_the_prefix(prefix, name, key@);
            if listed_name(prefix, key@) is Some {
                assert(all[before.len() as int] == listed_name(prefix, key@)->Some_0);
            }
            if name.len() > 0 && key@ == prefix + name {
                assert(keys[n - 1] is Some);
                assert(listed_name(prefix, key@) == Some(name));
            }
        }
        if all.contains(name) && !before.contains(name) {
            let at = choose|at: int| 0 <= at < all.len() && all[at] == name;
            assert(at == before.len());
            assert(keys[n - 1] is Some);
        }
    }
}

/// Where every key has a name, the names stand in the order of the keys, one for each.
pub proof fn names_keep_the_order_of_the_keys(
    prefix: Seq<char>,
    keys: Seq<Option<String>>,
    names: Seq<Seq<char>>,
)
    requires
        names.len() == keys.len(),
        forall|i: int|
            0 <= i < keys.len() ==> #[trigger] keys[i] is Some && keys[i]->Some_0@ == prefix
                + names[i] && names[i].len() > 0,
    ensures
        names_in_order(prefix, keys, keys.len()) == names,
{
    lemma_names_in_order(prefix, keys, names, keys.len());
    assert(names.take(keys.len() as int) =~= names);
}

proof fn lemma_names_in_order(
    prefix: Seq<char>,
    keys: Seq<Option<String>>,
    names: Seq<Seq<char>>,
    n: nat,
)
    requires
        n <= keys.len(),
        names.len() == keys.len(),
        forall|i: int|
            0 <= i < keys.len() ==> #[trigger] keys[i] is Some && keys[i]->Some_0@ == prefix
                + names[i] && names[i].len() > 0,
    ensures
        names_in_order(prefix, keys, n) == names.take(n as int),
    decreases n,
{
    if n > 0 {
        lemma_names_in_order(prefix, keys, names, (n - 1) as nat);
        assert(keys[n - 1] is Some);
        names_follow_the_prefix(prefix, names[n - 1], keys[n - 1]->Some_0@);
        assert(names_in_order(prefix, keys, n) =~= names.take(n as int));
    } else {
        assert(names.take(0) =~= Seq::<Seq<char>>::empty());
    }
}

/// A prefix gets one slash at its end, and no second one.
pub proof fn prefixes_end_with_one_slash(files_prefix: Seq<char>)
    ensures
        slash_ended(files_prefix).len() > 0,
        slash_ended(files_prefix).last() == '/',
        files_prefix.is_prefix_of(slash_ended(files_prefix)),
        slash_ended(files_prefix).len() <= files_prefix.len() + 1,
        files_prefix.len() > 0 && files_prefix.last() == '/' ==> slash_ended(files_prefix)
            == files_prefix,
{
    reveal_strlit("/");
    assert((files_prefix + "/"@).take(files_prefix.len() as int) =~= files_prefix);
    assert(files_prefix.take(files_prefix.len() as int) =~= files_prefix);
}

/// A listing of files leaves nothing out and makes nothing up: every object with a key, a
/// size, and something behind the prefix in its key is one of the files, with this key, this
/// name and this size, and every file is such an object. They keep the order of the listing
/// and are numbered from zero.
pub proof fn listed_files_are_the_objects(
    prefix: Seq<char>,
    objects: Seq<ListedObject>,
    files: Seq<SourceFile>,
    i: int,
    j: int,
)
    requires
        files.len() == archived(prefix, objects, objects.len()).len(),
        forall|k: int|
            0 <= k < files.len() ==> is_source_file(
                #[trigger] files[k],
                k,
                prefix,
                objects[archived(prefix, objects, objects.len())[k]],
            ),
    ensures
        0 <= i < objects.len() && objects[i].key is Some && objects[i].size is Some
            && prefix.is_prefix_of(objects[i].key->Some_0@) && objects[i].key->Some_0@.len()
            > prefix.len() ==> exists|k: int|
            #![trigger files[k]]
            {
                &&& 0 <= k < files.len()
                &&& files[k].key == objects[i].key->Some_0
                &&& prefix + files[k].name@ == objects[i].key->Some_0@
                &&& files[k].size == objects[i].size->Some_0 as u64
            },
        0 <= j < files.len() ==> files[j].id.0 == j && files[j].name@.len() > 0 && exists|k: int|
            #![trigger objects[k]]
            {
                &&& 0 <= k < objects.len()
                &&& objects[k].key == Some(files[j].key)
                &&& prefix + files[j].name@ == files[j].key@
                &&& objects[k].size is Some
                &&& files[j].size == objects[k].size->Some_0 as u64
            },
{
    let all = archived(prefix, objects, objects.len());
    archived_keep_their_order(prefix, objects, objects.len());
    if 0 <= i < objects.len() && objects[i].key is Some && objects[i].size is Some
        && prefix.is_prefix_of(objects[i].key->Some_0@) && objects[i].key->Some_0@.len()
        > prefix.len() {
        let k = lemma_archived_at(prefix, objects, i);
        assert(is_source_file(files[k], k, prefix, objects[i]));
    }
    if 0 <= j < files.len() {
        let k = all[j];
        assert(is_source_file(files[j], j, prefix, objects[k]));
        names_follow_the_prefix(prefix, Seq::empty(), objects[k].key->Some_0@);
        assert(objects[k].key == Some(files[j].key));
    }
}

/// The same of the objects that are laid out in pairs of parts.
pub proof fn listed_infos_are_the_objects(
    bucket: Seq<char>,
    prefix: Seq<char>,
    objects: Seq<ListedObject>,
    infos: Seq<FileInfo>,
    i: int,
    j: int,
)
    requires
        infos.len() == archived(prefix, objects, objects.len()).len(),
        forall|k: int|
            0 <= k < infos.len() ==> is_file_info(
                #[trigger] infos[k],
                bucket,
                prefix,
                objects[archived(prefix, objects, objects.len())[k]],
            ),
    ensures
        0 <= i < objects.len() && objects[i].key is Some && objects[i].size is Some
            && prefix.is_prefix_of(objects[i].key->Some_0@) && objects[i].key->Some_0@.len()
            > prefix.len() ==> exists|k: int|
            #![trigger infos[k]]
            {
                &&& 0 <= k < infos.len()
                &&& infos[k].bucket_name@ == bucket
                &&& infos[k].key == objects[i].key->Some_0
                &&& prefix + infos[k].name@ == objects[i].key->Some_0@
                &&& infos[k].size == objects[i].size->Some_0 as usize
            },
        0 <= j < infos.len() ==> infos[j].name@.len() > 0 && exists|k: int|
            #![trigger objects[k]]
            {
                &&& 0 <= k < objects.len()
                &&& objects[k].key == Some(infos[j].key)
                &&& prefix + infos[j].name@ == infos[j].key@
                &&& objects[k].size is Some
                &&& infos[j].size == objects[k].size->Some_0 as usize
            },
{
    let all = archived(prefix, objects, objects.len());
    archived_keep_their_order(prefix, objects, objects.len());
    if 0 <= i < objects.len() && objects[i].key is Some && objects[i].size is Some
        && prefix.is_prefix_of(objects[i].key->Some_0@) && objects[i].key->Some_0@.len()
        > prefix.len() {
        let k = lemma_archived_at(prefix, objects, i);
        assert(is_file_info(infos[k], bucket, prefix, objects[i]));
    }
    if 0 <= j < infos.len() {
        let k = all[j];
        assert(is_file_info(infos[j], bucket, prefix, objects[k]));
        names_follow_the_prefix(prefix, Seq::empty(), objects[k].key->Some_0@);
        assert(objects[k].key == Some(infos[j].key));
    }
}

} // verus!
