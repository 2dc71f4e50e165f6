//! Which files of the blocks directory hold blocks, and in which order.

use vstd::prelude::*;

verus! {

/// Whether `text` begins with `start`.
pub open spec fn starts_with(text: Seq<char>, start: Seq<char>) -> bool {
    start.len() <= text.len() && text.take(start.len() as int) == start
}

/// Whether `text` ends with `end`.
pub open spec fn ends_with(text: Seq<char>, end: Seq<char>) -> bool {
    end.len() <= text.len() && text.skip(text.len() - end.len()) == end
}

/// Whether a file of this name holds blocks.
pub open spec fn is_blk_name(name: Seq<char>) -> bool {
    starts_with(name, "blk"@) && ends_with(name, ".dat"@)
}

/// Those of `names` that are names of files with blocks.
pub open spec fn blk_names(names: Seq<Seq<char>>) -> Seq<Seq<char>> {
    names.filter(|name: Seq<char>| is_blk_name(name))
}

/// The order of names: by the first character in which they differ, and a name
/// before those that go on where it ends.
pub open spec fn name_le(a: Seq<char>, b: Seq<char>) -> bool
    decreases a.len(),
{
    if a.len() == 0 {
        true
    } else if b.len() == 0 {
        false
    } else if a[0] != b[0] {
        (a[0] as int) < (b[0] as int)
    } else {
        name_le(a.drop_first(), b.drop_first())
    }
}

/// Whether names stand in order.
pub open spec fn in_order(names: Seq<Seq<char>>) -> bool {
    forall|i: int, j: int| 0 <= i < j < names.len() ==> name_le(names[i], names[j])
}

/// The characters of each name.
pub open spec fn texts(names: Seq<String>) -> Seq<Seq<char>> {
    Seq::new(names.len(), |i: int| names[i]@)
}

/// Of two names one comes first, and only equal names come both ways.
pub proof fn law_names_are_ordered(a: Seq<char>, b: Seq<char>)
    ensures
        name_le(a, b) || name_le(b, a),
        name_le(a, b) && name_le(b, a) ==> a == b,
    decreases a.len(),
{
    if a.len() > 0 && b.len() > 0 && a[0] == b[0] {
        law_names_are_ordered(a.drop_first(), b.drop_first());
        if a.drop_first() == b.drop_first() {
            assert(a =~= seq![a[0]] + a.drop_first());
            assert(b =~= seq![b[0]] + b.drop_first());
        }
    }
    if a.len() == 0 && b.len() == 0 {
        assert(a =~= b);
    }
}

/// The order of names is transitive.
pub proof fn law_name_order_is_transitive(a: Seq<char>, b: Seq<char>, c: Seq<char>)
    requires
        name_le(a, b),
        name_le(b, c),
    ensures
        name_le(a, c),
    decreases a.len(),
{
    if a.len() > 0 && b.len() > 0 && c.len() > 0 && a[0] == b[0] && b[0] == c[0] {
        law_name_order_is_transitive(a.drop_first(), b.drop_first(), c.drop_first());
    }
}

/// How often a name occurs among the names of files with blocks.
proof fn lemma_blk_names_count(names: Seq<Seq<char>>, name: Seq<char>)
    ensures
        blk_names(names).to_multiset().count(name) == (if is_blk_name(name) {
            names.to_multiset().count(name)
        } else {
            0
        }),
    decreases names.len(),
{
    broadcast use vstd::seq_lib::group_to_multiset_ensures;

    reveal_with_fuel(Seq::filter, 1);
    if names.len() > 0 {
        let init = names.drop_last();
        let last = names.last();
        lemma_blk_names_count(init, name);
        assert(names =~= init.push(last));
        assert(blk_names(names) =~= if is_blk_name(last) {
            blk_names(init).push(last)
        } else {
            blk_names(init)
        });
    } else {
        assert(blk_names(names) =~= names);
    }
}

/// The files that hold blocks, in the order of their names, do not depend on
/// the order in which the directory lists them.
pub proof fn law_listing_order_does_not_matter(
    listing: Seq<Seq<char>>,
    other: Seq<Seq<char>>,
    files: Seq<Seq<char>>,
    other_files: Seq<Seq<char>>,
)
    requires
        listing.to_multiset() == other.to_multiset(),
        in_order(files),
        files.to_multiset() == blk_names(listing).to_multiset(),
        in_order(other_files),
        other_files.to_multiset() == blk_names(other).to_multiset(),
    ensures
        files == other_files,
{
    assert forall|name: Seq<char>| #[trigger]
        files.to_multiset().count(name) == other_files.to_multiset().count(name) by {
        lemma_blk_names_count(listing, name);
        lemma_blk_names_count(other, name);
    }
    assert(files.to_multiset() =~= other_files.to_multiset());
    let le = |a: Seq<char>, b: Seq<char>| name_le(a, b);
    assert forall|a: Seq<char>| #[trigger] le(a, a) by {
        law_names_are_ordered(a, a);
    }
    assert forall|a: Seq<char>, b: Seq<char>| #[trigger] le(a, b) && #[trigger] le(b, a) implies a
        == b by {
        law_names_are_ordered(a, b);
    }
    assert forall|a: Seq<char>, b: Seq<char>, c: Seq<char>|
        #[trigger] le(a, b) && #[trigger] le(b, c) implies le(a, c) by {
        law_name_order_is_transitive(a, b, c);
    }
    assert forall|a: Seq<char>, b: Seq<char>| #[trigger] le(a, b) || #[trigger] le(b, a) by {
        law_names_are_ordered(a, b);
    }
    vstd::seq_lib::lemma_sorted_unique(files, other_files, le);
}

/// A name with its characters at hand.
struct Spelled {
    name: String,
    chars: Vec<char>,
}

/// Whether the characters are those of the name.
spec fn are_spelled(list: Seq<Spelled>) -> bool {
    forall|i: int| 0 <= i < list.len() ==> (#[trigger] list[i]).chars@ == list[i].name@
}

spec fn spellings(list: Seq<Spelled>) -> Seq<Seq<char>> {
    Seq::new(list.len(), |i: int| list[i].name@)
}

/// The characters of a name.
fn spell(name: &String) -> (chars: Vec<char>)
    ensures
        chars@ == name@,
{
    let mut chars: Vec<char> = Vec::new();
    for c in it: name.as_str().chars()
        invariant
            it.seq() == name@,
            chars@ == name@.take(it.index()),
    {
        chars.push(c);
        assert(name@.take(it.index() + 1) =~= name@.take(it.index()).push(c));
    }
    assert(name@.take(name@.len() as int) =~= name@);
    chars
}

/// Whether a file of this name holds blocks.
fn names_blocks(name: &Vec<char>) -> (b: bool)
    ensures
        b == is_blk_name(name@),
{
    proof {
        reveal_strlit("blk");
        reveal_strlit(".dat");
    }
    let n = name.len();
    let b = n >= 4 && name[0] == 'b' && name[1] == 'l' && name[2] == 'k' && name[n - 4] == '.'
        && name[n - 3] == 'd' && name[n - 2] == 'a' && name[n - 1] == 't';
    proof {
        let start = name@.take(3);
        let end = name@.skip(n - 4);
        if b {
            assert(start =~= "blk"@);
            assert(end =~= ".dat"@);
        } else if is_blk_name(name@) {
            assert(start[0] == 'b' && start[1] == 'l' && start[2] == 'k');
            assert(end[0] == '.' && end[1] == 'd' && end[2] == 'a' && end[3] == 't');
        }
    }
    b
}

/// Compares two names.
fn comes_first(a: &Vec<char>, b: &Vec<char>) -> (le: bool)
    ensures
        le == name_le(a@, b@),
{
    let mut i: usize = 0;
    assert(a@.skip(0) =~= a@ && b@.skip(0) =~= b@);
    while i < a.len() && i < b.len() && a[i] == b[i]
        invariant
            i <= a@.len(),
            i <= b@.len(),
            name_le(a@, b@) == name_le(a@.skip(i as int), b@.skip(i as int)),
        decreases a@.len() - i,
    {
        assert(a@.skip(i as int).drop_first() =~= a@.skip(i + 1));
        assert(b@.skip(i as int).drop_first() =~= b@.skip(i + 1));
        i = i + 1;
    }
    if i == a.len() {
        true
    } else if i == b.len() {
        false
    } else {
        let x: char = a[i];
        let y: char = b[i];
        assert(a@.skip(i as int)[0] == x && b@.skip(i as int)[0] == y);
        x < y
    }
}

/// Puts `new` at its place in a list that stands in order.
fn insert_in_order(list: &mut Vec<Spelled>, new: Spelled)
    requires
        are_spelled(old(list)@),
        in_order(spellings(old(list)@)),
        new.chars@ == new.name@,
    ensures
        are_spelled(final(list)@),
        in_order(spellings(final(list)@)),
        spellings(final(list)@).to_multiset() == spellings(old(list)@).to_multiset().insert(
            new.name@,
        ),
{
    let mut at = list.len();
    let ghost before = spellings(list@);
    while at > 0 && !comes_first(&list[at - 1].chars, &new.chars)
        invariant
            *list == *old(list),
            before == spellings(list@),
            are_spelled(list@),
            new.chars@ == new.name@,
            at <= list@.len(),
            forall|j: int| at <= j < before.len() ==> !name_le(#[trigger] before[j], new.name@),
        decreases at,
    {
        at = at - 1;
    }
    let ghost name = new.name@;
    list.insert(at, new);
    proof {
        let after = spellings(list@);
        assert(after =~= before.insert(at as int, name));
        vstd::seq_lib::to_multiset_insert(before, at as int, name);
        assert forall|i: int, j: int| 0 <= i < j < after.len() implies name_le(
            after[i],
            after[j],
        ) by {
            if j == at && i < at - 1 {
                law_name_order_is_transitive(before[i], before[at - 1], name);
            } else if i == at {
                law_names_are_ordered(name, before[j - 1]);
            }
        }
    }
}

/// The files that hold blocks, in the order of their names.
///
/// Takes the names of all files of the blocks directory.
pub fn blk_files(names: Vec<String>) -> (files: Vec<String>)
    ensures
        in_order(texts(files@)),
        texts(files@).to_multiset() == blk_names(texts(names@)).to_multiset(),
{
    let ghost all = texts(names@);
    let n = names.len();
    let mut rest = names;
    let mut list: Vec<Spelled> = Vec::new();
    proof {
        reveal_with_fuel(Seq::filter, 1);
        assert(blk_names(all.take(0)) =~= seq![]);
        assert(spellings(list@) =~= seq![]);
    }
    for i in 0..n
        invariant
            n == all.len(),
            rest@.len() == n,
            forall|j: int| i <= j < n ==> (#[trigger] rest@[j])@ == all[j],
            are_spelled(list@),
            in_order(spellings(list@)),
            spellings(list@).to_multiset() == blk_names(all.take(i as int)).to_multiset(),
    {
        let mut name = String::new();
        std::mem::swap(&mut rest[i], &mut name);
        let chars = spell(&name);
        proof {
            reveal_with_fuel(Seq::filter, 1);
            assert(all.take(i + 1).drop_last() =~= all.take(i as int));
            vstd::seq_lib::to_multiset_build(blk_names(all.take(i as int)), name@);
        }
        if names_blocks(&chars) {
            insert_in_order(&mut list, Spelled { name, chars });
        }
    }
    proof {
        assert(all.take(n as int) =~= all);
    }
    let ghost sorted = spellings(list@);
    let m = list.len();
    let mut files: Vec<String> = Vec::new();
    for i in 0..m
        invariant
            m == sorted.len(),
            list@.len() == m,
            forall|j: int| i <= j < m ==> (#[trigger] list@[j]).name@ == sorted[j],
            texts(files@) == sorted.take(i as int),
    {
        let mut name = String::new();
        std::mem::swap(&mut list[i].name, &mut name);
        files.push(name);
        assert(texts(files@) =~= sorted.take(i as int).push(sorted[i as int]));
        assert(sorted.take(i + 1) =~= sorted.take(i as int).push(sorted[i as int]));
    }
    assert(sorted.take(m as int) =~= sorted);
    files
}

/// A file holds blocks if and only if its name begins with `blk` and ends with
/// `.dat`.
pub proof fn law_block_files_have_their_names(name: Seq<char>)
    ensures
        is_blk_name(name) <==> {
            &&& name.len() >= 7
            &&& name[0] == 'b' && name[1] == 'l' && name[2] == 'k'
            &&& name[name.len() - 4] == '.' && name[name.len() - 3] == 'd'
            &&& name[name.len() - 2] == 'a' && name[name.len() - 1] == 't'
        },
{
    reveal_strlit("blk");
    reveal_strlit(".dat");
    let n = name.len();
    let start = name.take(3);
    let end = name.skip(n - 4);
    if is_blk_name(name) {
        assert(start[0] == 'b' && start[1] == 'l' && start[2] == 'k');
        assert(end[0] == '.' && end[1] == 'd' && end[2] == 'a' && end[3] == 't');
    } else if n >= 7 && name[0] == 'b' && name[1] == 'l' && name[2] == 'k' && name[n - 4] == '.'
        && name[n - 3] == 'd' && name[n - 2] == 'a' && name[n - 1] == 't' {
        assert(start =~= "blk"@);
        assert(end =~= ".dat"@);
    }
}

/// A name comes before another if it is the beginning of it, or if it has the
/// lesser character where they first differ.
pub proof fn law_names_are_compared_where_they_differ(a: Seq<char>, b: Seq<char>)
    ensures
        name_le(a, b) <==> exists|k: int|
            0 <= k <= a.len() && k <= b.len() && #[trigger] a.take(k) == b.take(k) && (k == a.len()
                || (k < b.len() && (a[k] as int) < (b[k] as int))),
{
    if name_le(a, b) {
        lemma_difference(a, b);
    }
    if exists|k: int|
        0 <= k <= a.len() && k <= b.len() && #[trigger] a.take(k) == b.take(k) && (k == a.len() || (
        k < b.len() && (a[k] as int) < (b[k] as int))) {
        let k = choose|k: int|
            0 <= k <= a.len() && k <= b.len() && #[trigger] a.take(k) == b.take(k) && (k == a.len()
                || (k < b.len() && (a[k] as int) < (b[k] as int)));
        lemma_difference_decides(a, b, k);
    }
}

proof fn lemma_difference(a: Seq<char>, b: Seq<char>) -> (k: int)
    requires
        name_le(a, b),
    ensures
        0 <= k <= a.len(),
        k <= b.len(),
        a.take(k) == b.take(k),
        k == a.len() || (k < b.len() && (a[k] as int) < (b[k] as int)),
    decreases a.len(),
{
    if a.len() == 0 || a[0] != b[0] {
        assert(a.take(0) =~= b.take(0));
        0
    } else {
        let k = lemma_difference(a.drop_first(), b.drop_first());
        assert(a.take(k + 1) =~= seq![a[0]] + a.drop_first().take(k));
        assert(b.take(k + 1) =~= seq![b[0]] + b.drop_first().take(k));
        k + 1
    }
}

proof fn lemma_difference_decides(a: Seq<char>, b: Seq<char>, k: int)
    requires
        0 <= k <= a.len(),
        k <= b.len(),
        a.take(k) == b.take(k),
        k == a.len() || (k < b.len() && (a[k] as int) < (b[k] as int)),
    ensures
        name_le(a, b),
    decreases k,
{
    if k > 0 {
        assert(a.take(k)[0] == a[0] && b.take(k)[0] == b[0]);
        let x = a.drop_first();
        let y = b.drop_first();
        assert(x.take(k - 1) =~= a.take(k).drop_first());
        assert(y.take(k - 1) =~= b.take(k).drop_first());
        lemma_difference_decides(x, y, k - 1);
    }
}

/// Of the names in a listing, those of files with blocks come out, each as
/// often as it is listed, and no other; a name never comes out before one that
/// it comes after.
pub proof fn law_listed_block_files_come_out(
    listing: Seq<String>,
    files: Seq<String>,
    name: Seq<char>,
)
    requires
        in_order(texts(files)),
        texts(files).to_multiset() == blk_names(texts(listing)).to_multiset(),
    ensures
        forall|i: int, j: int|
            0 <= i < j < files.len() ==> name_le((#[trigger] files[i])@, (#[trigger] files[j])@),
        Seq::new(files.len(), |k: int| files[k]@).to_multiset().count(name) == (if name.len() >= 7
            && name[0] == 'b' && name[1] == 'l' && name[2] == 'k' && name[name.len() - 4] == '.'
            && name[name.len() - 3] == 'd' && name[name.len() - 2] == 'a' && name[name.len() - 1]
            == 't' {
            Seq::new(listing.len(), |k: int| listing[k]@).to_multiset().count(name)
        } else {
            0
        }),
{
    assert(texts(files) =~= Seq::new(files.len(), |k: int| files[k]@));
    assert(texts(listing) =~= Seq::new(listing.len(), |k: int| listing[k]@));
    assert forall|i: int, j: int| 0 <= i < j < files.len() implies name_le(
        (#[trigger] files[i])@,
        (#[trigger] files[j])@,
    ) by {
        assert(name_le(texts(files)[i], texts(files)[j]));
    }
    lemma_blk_names_count(texts(listing), name);
    law_block_files_have_their_names(name);
}

} // verus!
