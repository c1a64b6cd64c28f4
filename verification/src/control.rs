//! Validation of a finished archive: flat layout, one entry per object, and every entry named
//! by its content.

use crate::content::{content_name, content_name_of};
use crate::listing::NameSet;
use crate::text::{contains_char, decimal, decimal_text};
use vstd::hash_set::StringHashSet;
use vstd::prelude::*;
use vstd::string::StringExecFns;

verus! {

/// Why an archive is not accepted.
#[derive(Debug)]
pub enum ControlError {
    /// The bucket holds so many objects, and should hold so many.
    BadObjectCount(usize, usize),
    /// An entry with a slash in its name.
    HierarchyForbidden(String),
    /// An entry whose content has another name.
    ContentMismatch { file: String, actual: String },
    /// An entry that no object stands for, or that came before.
    UnknownOrDuplicate(String),
    /// Objects without an entry, some of them named.
    MissingObjects { count: usize, sample: Vec<String> },
}

/// A text in double quotes, what is special in it escaped: std's `Debug` of a string.
pub uninterp spec fn debug_quoted(text: Seq<char>) -> Seq<char>;

/// Writes a text by std's `Debug` of `str`. Which characters are escaped, and how, is left
/// unsaid: the result is named, as a function of the text alone.
#[verifier::external_body]
fn quoted(text: &str) -> (debug: String)
    ensures
        debug@ == debug_quoted(text@),
{
    format!("{text:?}")
}

/// The first `n` texts with commas between them.
pub open spec fn comma_joined(texts: Seq<String>, n: nat) -> Seq<char>
    decreases n,
{
    if n == 0 {
        Seq::empty()
    } else if n == 1 {
        texts[0]@
    } else {
        comma_joined(texts, (n - 1) as nat) + ", "@ + texts[n - 1]@
    }
}

/// The first `n` names in quotes, with commas between them.
pub open spec fn quoted_names(names: Seq<String>, n: nat) -> Seq<char>
    decreases n,
{
    if n == 0 {
        Seq::empty()
    } else if n == 1 {
        debug_quoted(names[0]@)
    } else {
        quoted_names(names, (n - 1) as nat) + ", "@ + debug_quoted(names[n - 1]@)
    }
}

/// The words for `count` missing objects, some of which are listed.
pub open spec fn missing_text(count: nat, list: Seq<char>) -> Seq<char> {
    "archive missing "@ + decimal_text(count) + " expected object(s) (sample: ["@ + list + "])"@
}

/// The words for missing objects, some of which are given as they are to be shown.
pub fn missing_message(count: usize, shown: &Vec<String>) -> (text: String)
    ensures
        text@ == missing_text(count as nat, comma_joined(shown@, shown@.len())),
{
    let mut list: String = String::from_str("");
    proof {
        reveal_strlit("");
        assert(list@ =~= comma_joined(shown@, 0));
    }
    for i in 0..shown.len()
        invariant
            list@ == comma_joined(shown@, i as nat),
    {
        if i > 0 {
            list.append(", ");
        }
        list.append(shown[i].as_str());
        assert(list@ =~= comma_joined(shown@, (i + 1) as nat));
    }
    let mut text: String = String::from_str("archive missing ");
    text.append(decimal(count as u64).as_str());
    text.append(" expected object(s) (sample: [");
    text.append(list.as_str());
    text.append("])");
    text
}

proof fn lemma_quoted_names(names: Seq<String>, shown: Seq<String>, n: nat)
    requires
        n <= names.len(),
        n <= shown.len(),
        forall|i: int| 0 <= i < n ==> (#[trigger] shown[i])@ == debug_quoted(names[i]@),
    ensures
        comma_joined(shown, n) == quoted_names(names, n),
    decreases n,
{
    if n > 1 {
        lemma_quoted_names(names, shown, (n - 1) as nat);
        assert(shown[n - 1]@ == debug_quoted(names[n - 1]@));
    } else if n == 1 {
        assert(shown[0]@ == debug_quoted(names[0]@));
    }
}

impl ControlError {
    /// The error in words.
    pub open spec fn text(&self) -> Seq<char> {
        match *self {
            ControlError::BadObjectCount(found, expected) => "expected "@ + decimal_text(
                expected as nat,
            ) + " test objects in bucket, found "@ + decimal_text(found as nat),
            ControlError::HierarchyForbidden(file) => "archive contains nested path '"@ + file@
                + "', flat layout required"@,
            ControlError::ContentMismatch { file, actual } => "content hash mismatch for '"@ + file@
                + "': computed "@ + actual@,
            ControlError::UnknownOrDuplicate(file) => "unknown or duplicate object in archive: '"@
                + file@ + "'"@,
            ControlError::MissingObjects { count, sample } => missing_text(
                count as nat,
                quoted_names(sample@, sample@.len()),
            ),
        }
    }

    /// The error in words.
    pub fn message(&self) -> (text: String)
        ensures
            text@ == self.text(),
    {
        match self {
            ControlError::BadObjectCount(found, expected) => {
                let mut s: String = String::from_str("expected ");
                s.append(decimal(*expected as u64).as_str());
                s.append(" test objects in bucket, found ");
                s.append(decimal(*found as u64).as_str());
                s
            },
            ControlError::HierarchyForbidden(file) => {
                let mut s: String = String::from_str("archive contains nested path '");
                s.append(file.as_str());
                s.append("', flat layout required");
                s
            },
            ControlError::ContentMismatch { file, actual } => {
                let mut s: String = String::from_str("content hash mismatch for '");
                s.append(file.as_str());
                s.append("': computed ");
                s.append(actual.as_str());
                s
            },
            ControlError::UnknownOrDuplicate(file) => {
                let mut s: String = String::from_str("unknown or duplicate object in archive: '");
                s.append(file.as_str());
                s.append("'");
                s
            },
            ControlError::MissingObjects { count, sample } => {
                let mut shown: Vec<String> = Vec::new();
                for i in 0..sample.len()
                    invariant
                        shown@.len() == i,
                        forall|j: int|
                            0 <= j < i ==> (#[trigger] shown@[j])@ == debug_quoted(sample@[j]@),
                {
                    shown.push(quoted(sample[i].as_str()));
                }
                proof {
                    lemma_quoted_names(sample@, shown@, sample@.len());
                }
                missing_message(*count, &shown)
            },
        }
    }
}

/// How many missing objects are named at most.
pub const SAMPLE_SIZE: usize = 5;

/// Whether the number of objects in the bucket is the one that is expected.
pub open spec fn count_accepted(found: usize, expected: usize) -> bool {
    found == expected
}

/// One object too few and one too many are refused alike.
pub proof fn only_the_expected_count_is_accepted(found: usize, expected: usize)
    ensures
        count_accepted(expected, expected),
        found < expected || found > expected ==> !count_accepted(found, expected),
{
}

/// Compares the number of objects in the bucket with the one that is expected.
pub fn check_object_count(found: usize, expected: usize) -> (result: Result<(), ControlError>)
    ensures
        result is Ok <==> count_accepted(found, expected),
        match result {
            Ok(_) => found == expected,
            Err(e) => found != expected && e == ControlError::BadObjectCount(found, expected),
        },
{
    if found != expected {
        Err(ControlError::BadObjectCount(found, expected))
    } else {
        Ok(())
    }
}

/// The names that are still expected behind the first `n` entries.
pub open spec fn still_expected(
    expected: Set<Seq<char>>,
    files: Seq<String>,
    n: nat,
) -> Set<Seq<char>>
    decreases n,
{
    if n == 0 {
        expected
    } else {
        still_expected(expected, files, (n - 1) as nat).remove(files[n - 1]@)
    }
}

/// The first `n` entries are in order: none has a slash in its name, and each was expected
/// when it came.
pub open spec fn entries_in_order(
    expected: Set<Seq<char>>,
    files: Seq<String>,
    n: nat,
) -> bool {
    forall|i: int|
        #![trigger files[i]]
        0 <= i < n ==> !files[i]@.contains('/') && still_expected(
            expected,
            files,
            i as nat,
        ).contains(files[i]@)
}

/// Checks the names of the archive's entries against the names of the objects.
pub fn check_entry_names(files: &Vec<String>, expected: NameSet) -> (result: Result<
    (),
    ControlError,
>)
    requires
        expected.wf(),
    ensures
        match result {
            Ok(_) => {
                &&& entries_in_order(expected@, files@, files@.len())
                &&& still_expected(expected@, files@, files@.len()) == Set::<Seq<char>>::empty()
            },
            Err(ControlError::HierarchyForbidden(file)) => exists|i: int|
                #![trigger files@[i]]
                {
                    &&& 0 <= i < files@.len()
                    &&& entries_in_order(expected@, files@, i as nat)
                    &&& files@[i]@.contains('/')
                    &&& file@ == files@[i]@
                },
            Err(ControlError::UnknownOrDuplicate(file)) => exists|i: int|
                #![trigger files@[i]]
                {
                    &&& 0 <= i < files@.len()
                    &&& entries_in_order(expected@, files@, i as nat)
                    &&& !files@[i]@.contains('/')
                    &&& !still_expected(expected@, files@, i as nat).contains(files@[i]@)
                    &&& file@ == files@[i]@
                },
            Err(ControlError::MissingObjects { count, sample }) => {
                let missing = still_expected(expected@, files@, files@.len());
                &&& entries_in_order(expected@, files@, files@.len())
                &&& missing.len() > 0
                &&& count == missing.len()
                &&& sample@.len() == (if count <= SAMPLE_SIZE {
                    count as nat
                } else {
                    SAMPLE_SIZE as nat
                })
                &&& forall|i: int|
                    0 <= i < sample@.len() ==> missing.contains(#[trigger] sample@[i]@)
                &&& forall|i: int, j: int|
                    0 <= i < j < sample@.len() ==> #[trigger] sample@[i]@
                        != #[trigger] sample@[j]@
            },
            Err(_) => false,
        },
{
    broadcast use vstd::hash_set::group_hash_set_axioms;

    let ghost all = expected@;
    let ghost listed = expected.names@;
    let names: Vec<String> = expected.names;
    let mut left: StringHashSet = expected.set;
    for i in 0..files.len()
        invariant
            left@ == still_expected(all, files@, i as nat),
            left@.finite(),
            left@.subset_of(all),
            all.finite(),
            all == expected@,
            entries_in_order(all, files@, i as nat),
    {
        let file: &String = &files[i];
        assert(files@[i as int]@ == file@);
        if contains_char(file.as_str(), '/') {
            return Err(ControlError::HierarchyForbidden(file.clone()));
        }
        if !left.remove(file.as_str()) {
            return Err(ControlError::UnknownOrDuplicate(file.clone()));
        }
    }
    if !left.is_empty() {
        let count: usize = left.len();
        let sample: Vec<String> = sample_of(&names, &left);
        return Err(ControlError::MissingObjects { count, sample });
    }
    assert(left@ =~= Set::empty());
    Ok(())
}

/// The first names of the list that are in the set, as many as are wanted.
fn sample_of(names: &Vec<String>, left: &StringHashSet) -> (sample: Vec<String>)
    requires
        left@.finite(),
        forall|name: Seq<char>| #[trigger]
            left@.contains(name) ==> exists|i: int|
                0 <= i < names@.len() && #[trigger] names@[i]@ == name,
        forall|i: int, j: int|
            0 <= i < j < names@.len() ==> #[trigger] names@[i]@ != #[trigger] names@[j]@,
    ensures
        sample@.len() == (if left@.len() <= SAMPLE_SIZE {
            left@.len()
        } else {
            SAMPLE_SIZE as nat
        }),
        forall|i: int| 0 <= i < sample@.len() ==> left@.contains(#[trigger] sample@[i]@),
        forall|i: int, j: int|
            0 <= i < j < sample@.len() ==> #[trigger] sample@[i]@ != #[trigger] sample@[j]@,
{
    let mut sample: Vec<String> = Vec::new();
    let ghost mut seen = Set::<Seq<char>>::empty();
    let mut i: usize = 0;
    while i < names.len() && sample.len() < SAMPLE_SIZE
        invariant
            i <= names@.len(),
            sample@.len() <= SAMPLE_SIZE,
            left@.finite(),
            forall|i: int, j: int|
                0 <= i < j < names@.len() ==> #[trigger] names@[i]@ != #[trigger] names@[j]@,
            seen.finite(),
            seen.len() == sample@.len(),
            seen.subset_of(left@),
            forall|name: Seq<char>| #[trigger]
                seen.contains(name) ==> exists|j: int|
                    0 <= j < i && #[trigger] names@[j]@ == name,
            forall|j: int|
                0 <= j < i && left@.contains(names@[j]@) ==> seen.contains(
                    #[trigger] names@[j]@,
                ),
            forall|j: int| 0 <= j < sample@.len() ==> seen.contains(#[trigger] sample@[j]@),
            forall|j: int, k: int|
                0 <= j < k < sample@.len() ==> #[trigger] sample@[j]@ != #[trigger] sample@[k]@,
        decreases names@.len() - i,
    {
        let ghost before = seen;
        if left.contains(names[i].as_str()) {
            let kept: String = names[i].clone();
            sample.push(kept);
            proof {
                let name = names@[i as int]@;
                assert(!before.contains(name)) by {
                    if before.contains(name) {
                        let j = choose|j: int| 0 <= j < i && #[trigger] names@[j]@ == name;
                        assert(names@[j]@ != names@[i as int]@);
                    }
                }
                seen = before.insert(name);
            }
        }
        i = i + 1;
        proof {
            assert forall|name: Seq<char>| #[trigger] seen.contains(name) implies exists|j: int|
                0 <= j < i && #[trigger] names@[j]@ == name by {
                if before.contains(name) {
                    let j = choose|j: int| 0 <= j < i - 1 && #[trigger] names@[j]@ == name;
                    assert(names@[j]@ == name);
                } else {
                    assert(names@[i - 1]@ == name);
                }
            }
        }
    }
    proof {
        if sample@.len() < SAMPLE_SIZE {
            assert(seen =~= left@) by {
                assert forall|name: Seq<char>| left@.contains(name) implies seen.contains(name) by {
                    let j = choose|j: int| 0 <= j < names@.len() && #[trigger] names@[j]@ == name;
                    assert(seen.contains(names@[j]@));
                }
            }
        } else {
            vstd::set_lib::lemma_len_subset(seen, left@);
        }
    }
    sample
}

/// Checks the name that an entry's content has against the entry's name.
pub fn check_content_name(file: String, actual: String) -> (result: Result<(), ControlError>)
    ensures
        match result {
            Ok(_) => actual@ == file@,
            Err(e) => actual@ != file@ && e == (ControlError::ContentMismatch { file, actual }),
        },
{
    if actual != file {
        return Err(ControlError::ContentMismatch { file, actual });
    }
    Ok(())
}

/// Checks the content of an entry against its name.
pub fn check_entry_content(file: String, content: &[u8]) -> (result: Result<(), ControlError>)
    ensures
        match result {
            Ok(_) => content_name_of(content@) == file@,
            Err(ControlError::ContentMismatch { file: f, actual }) => {
                &&& content_name_of(content@) != file@
                &&& f == file
                &&& actual@ == content_name_of(content@)
            },
            Err(_) => false,
        },
{
    check_content_name(file, content_name(content))
}

proof fn lemma_still_expected(
    expected: Set<Seq<char>>,
    files: Seq<String>,
    n: nat,
    name: Seq<char>,
)
    requires
        n <= files.len(),
    ensures
        still_expected(expected, files, n).contains(name) <==> expected.contains(name) && !(exists|
            i: int,
        |
            0 <= i < n && #[trigger] files[i]@ == name),
    decreases n,
{
    if n > 0 {
        lemma_still_expected(expected, files, (n - 1) as nat, name);
        let before = still_expected(expected, files, (n - 1) as nat);
        if files[n - 1]@ == name {
        } else if expected.contains(name) && !before.contains(name) {
            let i = choose|i: int| 0 <= i < n - 1 && #[trigger] files[i]@ == name;
            assert(files[i]@ == name);
        }
    }
}

/// The names of an archive are accepted exactly where they are flat, no two are the same,
/// and they are the names of the objects.
pub proof fn accepted_names_are_the_expected_ones(expected: Set<Seq<char>>, files: Seq<String>)
    ensures
        (entries_in_order(expected, files, files.len()) && still_expected(
            expected,
            files,
            files.len(),
        ) == Set::<Seq<char>>::empty()) <==> {
            &&& forall|i: int| 0 <= i < files.len() ==> !(#[trigger] files[i]@).contains('/')
            &&& forall|i: int, j: int|
                0 <= i < j < files.len() ==> #[trigger] files[i]@ != #[trigger] files[j]@
            &&& forall|i: int| 0 <= i < files.len() ==> expected.contains(#[trigger] files[i]@)
            &&& forall|name: Seq<char>| #[trigger]
                expected.contains(name) ==> exists|i: int|
                    0 <= i < files.len() && #[trigger] files[i]@ == name
        },
{
    let n = files.len();
    let left = still_expected(expected, files, n);
    if entries_in_order(expected, files, n) && left == Set::<Seq<char>>::empty() {
        assert forall|i: int| 0 <= i < n implies !(#[trigger] files[i]@).contains('/')
            && expected.contains(files[i]@) by {
            assert(still_expected(expected, files, i as nat).contains(files[i]@));
            lemma_still_expected(expected, files, i as nat, files[i]@);
        }
        assert forall|i: int, j: int| 0 <= i < j < n implies #[trigger] files[i]@
            != #[trigger] files[j]@ by {
            assert(still_expected(expected, files, j as nat).contains(files[j]@));
            lemma_still_expected(expected, files, j as nat, files[j]@);
        }
        assert forall|name: Seq<char>| #[trigger] expected.contains(name) implies exists|i: int|
            0 <= i < n && #[trigger] files[i]@ == name by {
            lemma_still_expected(expected, files, n, name);
            assert(!left.contains(name));
        }
    }
    if {
        &&& forall|i: int| 0 <= i < files.len() ==> !(#[trigger] files[i]@).contains('/')
        &&& forall|i: int, j: int|
            0 <= i < j < files.len() ==> #[trigger] files[i]@ != #[trigger] files[j]@
        &&& forall|i: int| 0 <= i < files.len() ==> expected.contains(#[trigger] files[i]@)
        &&& forall|name: Seq<char>| #[trigger]
            expected.contains(name) ==> exists|i: int|
                0 <= i < files.len() && #[trigger] files[i]@ == name
    } {
        assert forall|i: int|
            #![trigger files[i]]
            0 <= i < n implies !files[i]@.contains('/') && still_expected(
            expected,
            files,
            i as nat,
        ).contains(files[i]@) by {
            lemma_still_expected(expected, files, i as nat, files[i]@);
            assert(expected.contains(files[i]@));
        }
        assert forall|name: Seq<char>| !left.contains(name) by {
            lemma_still_expected(expected, files, n, name);
        }
        assert(left =~= Set::<Seq<char>>::empty());
    }
}

/// What is missing behind some entries is what was expected and is none of them.
pub proof fn missing_names_have_no_entry(
    expected: Set<Seq<char>>,
    files: Seq<String>,
    n: nat,
    name: Seq<char>,
)
    requires
        n <= files.len(),
    ensures
        still_expected(expected, files, n).contains(name) <==> expected.contains(name) && forall|
            i: int,
        |
            0 <= i < n ==> #[trigger] files[i]@ != name,
{
    lemma_still_expected(expected, files, n, name);
}

/// An entry breaks the order exactly where it has a slash in its name, where its name was not
/// expected, or where an entry before it has the same name.
pub proof fn wrong_entries_are_found(expected: Set<Seq<char>>, files: Seq<String>, n: nat)
    requires
        n <= files.len(),
    ensures
        entries_in_order(expected, files, n) <==> forall|i: int|
            0 <= i < n ==> !(#[trigger] files[i]@).contains('/') && expected.contains(files[i]@)
                && forall|j: int| 0 <= j < i ==> #[trigger] files[j]@ != files[i]@,
{
    if entries_in_order(expected, files, n) {
        assert forall|i: int| 0 <= i < n implies !(#[trigger] files[i]@).contains('/')
            && expected.contains(files[i]@) && forall|j: int|
            0 <= j < i ==> #[trigger] files[j]@ != files[i]@ by {
            assert(still_expected(expected, files, i as nat).contains(files[i]@));
            lemma_still_expected(expected, files, i as nat, files[i]@);
        }
    }
    if forall|i: int|
        0 <= i < n ==> !(#[trigger] files[i]@).contains('/') && expected.contains(files[i]@)
            && forall|j: int| 0 <= j < i ==> #[trigger] files[j]@ != files[i]@ {
        assert forall|i: int|
            #![trigger files[i]]
            0 <= i < n implies !files[i]@.contains('/') && still_expected(
            expected,
            files,
            i as nat,
        ).contains(files[i]@) by {
            assert(!files[i]@.contains('/'));
            lemma_still_expected(expected, files, i as nat, files[i]@);
        }
    }
}

} // verus!
