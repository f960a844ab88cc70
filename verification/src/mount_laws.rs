//! What a mount plan holds of a project directory.

use vstd::prelude::*;
use crate::rivet::filesystem::BatchWriteResult;
use crate::text;
use crate::workspace_mount as mount;
use crate::workspace_mount::{
    FileView, FoundView, HostEntry, HostKind, HostRoot, MountOptions, SkipReason, SkipView,
};

verus! {

/// The entries of a directory; what is no directory has none.
pub open spec fn inside(e: HostEntry) -> Seq<HostEntry> {
    match e.kind {
        HostKind::Directory { entries } => entries@,
        _ => Seq::empty(),
    }
}

/// Whether an entry is the directory `name`.
pub open spec fn is_dir(e: HostEntry, name: Seq<char>) -> bool {
    e.kind is Directory && e.name is Some && e.name->0@ == name
}

/// Whether `e` lies among the entries: in the directory to which `names`, one
/// below the other, lead.
pub open spec fn lies(entries: Seq<HostEntry>, names: Seq<Seq<char>>, e: HostEntry) -> bool
    decreases names.len(),
{
    if names.len() == 0 {
        entries.contains(e)
    } else {
        exists|k: int|
            0 <= k < entries.len() && is_dir(#[trigger] entries[k], names[0]) && lies(
                inside(entries[k]),
                names.skip(1),
                e,
            )
    }
}

/// The path to which `names`, one below the other, lead from `dir`.
pub open spec fn path_of(dir: Seq<char>, names: Seq<Seq<char>>) -> Seq<char>
    decreases names.len(),
{
    if names.len() == 0 {
        dir
    } else {
        path_of(dir + seq!['/'] + names[0], names.skip(1))
    }
}

/// Whether none of the names is excluded.
pub open spec fn all_wanted(names: Seq<Seq<char>>, exclude: Seq<Seq<char>>) -> bool {
    forall|i: int| 0 <= i < names.len() ==> !exclude.contains(#[trigger] names[i])
}

/// Something that a plan holds.
pub enum Item {
    File(FileView),
    Directory(Seq<char>),
    Skipped(SkipView),
}

/// Whether a plan holds something.
pub open spec fn holds(f: FoundView, item: Item) -> bool {
    match item {
        Item::File(x) => f.files.contains(x),
        Item::Directory(x) => f.directories.contains(x),
        Item::Skipped(x) => f.skipped.contains(x),
    }
}

/// What an entry of a directory comes to; `dir` is where the directory goes in
/// the machine.
pub open spec fn comes_to(
    e: HostEntry,
    dir: Seq<char>,
    exclude: Seq<Seq<char>>,
    max: u64,
) -> Item {
    if e.name is None {
        Item::Skipped(SkipView { host_path: e.path@, reason: SkipReason::NonUtf8Path })
    } else if exclude.contains(e.name->0@) {
        Item::Skipped(SkipView { host_path: e.path@, reason: SkipReason::Excluded })
    } else {
        let path = dir + seq!['/'] + e.name->0@;
        match e.kind {
            HostKind::Other => Item::Skipped(
                SkipView { host_path: e.path@, reason: SkipReason::NotRegularFile },
            ),
            HostKind::Directory { .. } => Item::Directory(path),
            HostKind::File { size } => if size > max {
                Item::Skipped(
                    SkipView { host_path: e.path@, reason: SkipReason::TooLarge { size } },
                )
            } else {
                Item::File(FileView { host_path: e.path@, vm_path: path, size })
            },
        }
    }
}

/// Whether the entry `e` in the directory to which `names` lead comes to `item`,
/// and no name on the way to it is excluded.
pub open spec fn gives(
    entries: Seq<HostEntry>,
    here: Seq<char>,
    exclude: Seq<Seq<char>>,
    max: u64,
    item: Item,
    names: Seq<Seq<char>>,
    e: HostEntry,
) -> bool {
    &&& lies(entries, names, e)
    &&& all_wanted(names, exclude)
    &&& item == comes_to(e, path_of(here, names), exclude, max)
}

/// Whether one of the entries, at any depth, comes to `item`.
pub open spec fn given(
    entries: Seq<HostEntry>,
    here: Seq<char>,
    exclude: Seq<Seq<char>>,
    max: u64,
    item: Item,
) -> bool {
    exists|names: Seq<Seq<char>>, e: HostEntry|
        #[trigger] gives(entries, here, exclude, max, item, names, e)
}

proof fn lemma_lies_split(entries: Seq<HostEntry>, names: Seq<Seq<char>>, e: HostEntry)
    requires
        entries.len() > 0,
    ensures
        lies(entries, names, e) <==> (lies(entries.drop_last(), names, e) || (names.len() == 0 && e
            == entries.last()) || (names.len() > 0 && is_dir(entries.last(), names[0]) && lies(
            inside(entries.last()),
            names.skip(1),
            e,
        ))),
{
    let front = entries.drop_last();
    let last = entries.len() - 1;
    if names.len() == 0 {
        if entries.contains(e) {
            let k = choose|k: int| 0 <= k < entries.len() && entries[k] == e;
            if k < last {
                assert(front[k] == e);
            }
        }
        if front.contains(e) {
            let k = choose|k: int| 0 <= k < front.len() && front[k] == e;
            assert(entries[k] == e);
        }
        if e == entries.last() {
            assert(entries[last] == e);
        }
    } else {
        if lies(entries, names, e) {
            let k = choose|k: int|
                0 <= k < entries.len() && is_dir(#[trigger] entries[k], names[0]) && lies(
                    inside(entries[k]),
                    names.skip(1),
                    e,
                );
            if k < last {
                assert(is_dir(front[k], names[0]) && lies(inside(front[k]), names.skip(1), e));
            }
        }
        if lies(front, names, e) {
            let k = choose|k: int|
                0 <= k < front.len() && is_dir(#[trigger] front[k], names[0]) && lies(
                    inside(front[k]),
                    names.skip(1),
                    e,
                );
            assert(is_dir(entries[k], names[0]) && lies(inside(entries[k]), names.skip(1), e));
        }
        if is_dir(entries.last(), names[0]) && lies(inside(entries.last()), names.skip(1), e) {
            assert(is_dir(entries[last], names[0]) && lies(
                inside(entries[last]),
                names.skip(1),
                e,
            ));
        }
    }
}

proof fn lemma_wanted_split(names: Seq<Seq<char>>, exclude: Seq<Seq<char>>)
    requires
        names.len() > 0,
    ensures
        all_wanted(names, exclude) <==> (!exclude.contains(names[0]) && all_wanted(
            names.skip(1),
            exclude,
        )),
{
    let rest = names.skip(1);
    if all_wanted(names, exclude) {
        assert forall|i: int| 0 <= i < rest.len() implies !exclude.contains(#[trigger] rest[i]) by {
            assert(rest[i] == names[i + 1]);
        }
    }
    if !exclude.contains(names[0]) && all_wanted(rest, exclude) {
        assert forall|i: int| 0 <= i < names.len() implies !exclude.contains(
            #[trigger] names[i],
        ) by {
            if i > 0 {
                assert(names[i] == rest[i - 1]);
            }
        }
    }
}

/// What is given among entries is given among all but the last, or the last comes
/// to it, or it is given inside the last.
proof fn lemma_given_split(
    entries: Seq<HostEntry>,
    here: Seq<char>,
    exclude: Seq<Seq<char>>,
    max: u64,
    item: Item,
)
    requires
        entries.len() > 0,
    ensures
        given(entries, here, exclude, max, item) <==> {
            let e = entries.last();
            ||| given(entries.drop_last(), here, exclude, max, item)
            ||| item == comes_to(e, here, exclude, max)
            ||| e.kind is Directory && e.name is Some && !exclude.contains(e.name->0@) && given(
                inside(e),
                here + seq!['/'] + e.name->0@,
                exclude,
                max,
                item,
            )
        },
{
    let front = entries.drop_last();
    let last = entries.last();
    let none = Seq::<Seq<char>>::empty();
    if given(entries, here, exclude, max, item) {
        let (names, e) = choose|names: Seq<Seq<char>>, e: HostEntry|
            #[trigger] gives(entries, here, exclude, max, item, names, e);
        lemma_lies_split(entries, names, e);
        if lies(front, names, e) {
            assert(gives(front, here, exclude, max, item, names, e));
        } else if names.len() > 0 {
            lemma_wanted_split(names, exclude);
            assert(gives(
                inside(last),
                here + seq!['/'] + last.name->0@,
                exclude,
                max,
                item,
                names.skip(1),
                e,
            ));
        }
    }
    if given(front, here, exclude, max, item) {
        let (names, e) = choose|names: Seq<Seq<char>>, e: HostEntry|
            #[trigger] gives(front, here, exclude, max, item, names, e);
        lemma_lies_split(entries, names, e);
        assert(gives(entries, here, exclude, max, item, names, e));
    }
    if item == comes_to(last, here, exclude, max) {
        lemma_lies_split(entries, none, last);
        assert(gives(entries, here, exclude, max, item, none, last));
    }
    if last.kind is Directory && last.name is Some && !exclude.contains(last.name->0@) && given(
        inside(last),
        here + seq!['/'] + last.name->0@,
        exclude,
        max,
        item,
    ) {
        let below = here + seq!['/'] + last.name->0@;
        let (names, e) = choose|names: Seq<Seq<char>>, e: HostEntry|
            #[trigger] gives(inside(last), below, exclude, max, item, names, e);
        let all = seq![last.name->0@] + names;
        assert(all.skip(1) =~= names);
        lemma_lies_split(entries, all, e);
        lemma_wanted_split(all, exclude);
        assert(gives(entries, here, exclude, max, item, all, e));
    }
}

proof fn lemma_holds_pushed<A>(s: Seq<A>, x: A)
    ensures
        forall|y: A| #[trigger] s.push(x).contains(y) <==> (s.contains(y) || y == x),
{
    assert forall|y: A| #[trigger] s.push(x).contains(y) <==> (s.contains(y) || y == x) by {
        let t = s.push(x);
        if s.contains(y) {
            let k = choose|k: int| 0 <= k < s.len() && s[k] == y;
            assert(t[k] == y);
        }
        if y == x {
            assert(t[s.len() as int] == y);
        }
    }
}

proof fn lemma_holds_added<A>(a: Seq<A>, b: Seq<A>)
    ensures
        forall|y: A| #[trigger] (a + b).contains(y) <==> (a.contains(y) || b.contains(y)),
{
    assert forall|y: A| #[trigger] (a + b).contains(y) <==> (a.contains(y) || b.contains(y)) by {
        if a.contains(y) {
            let k = choose|k: int| 0 <= k < a.len() && a[k] == y;
            assert((a + b)[k] == y);
        }
        if b.contains(y) {
            let k = choose|k: int| 0 <= k < b.len() && b[k] == y;
            assert((a + b)[a.len() + k] == y);
        }
    }
}

proof fn lemma_walk_holds(
    entries: Seq<HostEntry>,
    rel: Seq<char>,
    point: Seq<char>,
    exclude: Seq<Seq<char>>,
    max: u64,
    item: Item,
)
    requires
        mount::well_named(entries),
        mount::vm_path(point, rel) is Some,
    ensures
        holds(mount::walked(entries, rel, point, exclude, max), item) <==> given(
            entries,
            mount::vm_path(point, rel)->0,
            exclude,
            max,
            item,
        ),
    decreases entries,
{
    let here = mount::vm_path(point, rel)->0;
    let all = mount::walked(entries, rel, point, exclude, max);
    if entries.len() == 0 {
        if given(entries, here, exclude, max, item) {
            let (names, e) = choose|names: Seq<Seq<char>>, e: HostEntry|
                #[trigger] gives(entries, here, exclude, max, item, names, e);
            assert(lies(entries, names, e));
        }
    } else {
        let e = entries.last();
        let front = mount::walked(entries.drop_last(), rel, point, exclude, max);
        lemma_walk_holds(entries.drop_last(), rel, point, exclude, max, item);
        lemma_given_split(entries, here, exclude, max, item);
        assert(decreases_to!(entries => entries[entries.len() - 1]));
        match comes_to(e, here, exclude, max) {
            Item::Skipped(x) => {
                if e.name is Some && !exclude.contains(e.name->0@) {
                    mount::lemma_child_path(point, rel, e.name->0@);
                }
                lemma_holds_pushed(front.skipped, x);
                assert(all.skipped == front.skipped.push(x));
                assert(all.files == front.files && all.directories == front.directories);
            },
            Item::File(x) => {
                mount::lemma_child_path(point, rel, e.name->0@);
                lemma_separator();
                lemma_holds_pushed(front.files, x);
                assert(all.files == front.files.push(x));
            },
            Item::Directory(x) => {
                let name = e.name->0@;
                mount::lemma_child_path(point, rel, name);
                lemma_separator();
                let sub = e.kind->entries;
                assert(decreases_to!(e => e.kind));
                assert(decreases_to!(e.kind => e.kind->entries));
                assert(decreases_to!(sub => sub@));
                lemma_walk_holds(sub@, mount::below(rel, name), point, exclude, max, item);
                let inner = mount::walked(sub@, mount::below(rel, name), point, exclude, max);
                lemma_holds_pushed(front.directories, x);
                lemma_holds_added(front.directories.push(x), inner.directories);
                lemma_holds_added(front.files, inner.files);
                lemma_holds_added(front.skipped, inner.skipped);
            },
        }
    }
}

proof fn lemma_separator()
    ensures
        "/"@ == seq!['/'],
{
    reveal_strlit("/");
    assert("/"@ =~= seq!['/']);
}

/// A plan holds what the entries of the project come to, at every depth, and
/// nothing else: an entry counts where no directory on the way to it has an
/// excluded name, and what it comes to depends on its own name, kind and size.
pub proof fn law_plan_holds_what_the_project_comes_to(
    root: HostRoot,
    root_path: Seq<char>,
    opts: MountOptions,
    plan: FoundView,
    item: Item,
)
    requires
        root is Directory,
        mount::well_named(root->Directory_entries@),
        mount::planned(root, root_path, opts) == Ok::<FoundView, Seq<char>>(plan),
    ensures
        holds(plan, item) <==> given(
            root->Directory_entries@,
            mount::mount_point_of(opts.mount_point@)->Ok_0,
            text::views(opts.exclude@),
            opts.max_file_size,
            item,
        ),
{
    let point = mount::mount_point_of(opts.mount_point@)->Ok_0;
    let entries = root->Directory_entries@;
    let exclude = text::views(opts.exclude@);
    let top = Seq::<char>::empty();
    let found = mount::walked(entries, top, point, exclude, opts.max_file_size);
    mount::lemma_top_path(point);
    lemma_walk_holds(entries, top, point, exclude, opts.max_file_size, item);
    mount::law_files_stand_in_order(found.files);
    mount::law_directories_stand_in_order(found.directories);
    mount::law_skipped_stand_in_order(found.skipped);
}

/// Nothing of a plan stands at or below an excluded name: the paths of its files
/// and directories are names below the mount point, none of them excluded.
pub proof fn law_excluded_names_are_left_out(
    root: HostRoot,
    root_path: Seq<char>,
    opts: MountOptions,
    plan: FoundView,
    path: Seq<char>,
) -> (names: Seq<Seq<char>>)
    requires
        root is Directory,
        mount::well_named(root->Directory_entries@),
        mount::planned(root, root_path, opts) == Ok::<FoundView, Seq<char>>(plan),
        plan.directories.contains(path) || exists|i: int|
            0 <= i < plan.files.len() && (#[trigger] plan.files[i]).vm_path == path,
    ensures
        names.len() > 0,
        path == path_of(mount::mount_point_of(opts.mount_point@)->Ok_0, names),
        all_wanted(names, text::views(opts.exclude@)),
{
    let point = mount::mount_point_of(opts.mount_point@)->Ok_0;
    let entries = root->Directory_entries@;
    let exclude = text::views(opts.exclude@);
    let max = opts.max_file_size;
    let item = if plan.directories.contains(path) {
        Item::Directory(path)
    } else {
        let i = choose|i: int|
            0 <= i < plan.files.len() && (#[trigger] plan.files[i]).vm_path == path;
        assert(plan.files.contains(plan.files[i]));
        Item::File(plan.files[i])
    };
    law_plan_holds_what_the_project_comes_to(root, root_path, opts, plan, item);
    let (names, e) = choose|names: Seq<Seq<char>>, e: HostEntry|
        #[trigger] gives(entries, point, exclude, max, item, names, e);
    let all = names.push(e.name->0@);
    lemma_path_push(point, names, e.name->0@);
    assert forall|i: int| 0 <= i < all.len() implies !exclude.contains(#[trigger] all[i]) by {
        if i < names.len() {
            assert(all[i] == names[i]);
        }
    }
    all
}

proof fn lemma_path_push(dir: Seq<char>, names: Seq<Seq<char>>, name: Seq<char>)
    ensures
        path_of(dir, names.push(name)) == path_of(dir, names) + seq!['/'] + name,
    decreases names.len(),
{
    let all = names.push(name);
    if names.len() == 0 {
        assert(all.skip(1) =~= Seq::empty());
        assert(path_of(dir + seq!['/'] + name, all.skip(1)) == dir + seq!['/'] + name);
    } else {
        assert(all.skip(1) =~= names.skip(1).push(name));
        lemma_path_push(dir + seq!['/'] + names[0], names.skip(1), name);
    }
}

/// The mount point is given without the slashes at its end; it is refused where
/// it is not absolute, or the root.
pub proof fn law_mount_point(point: Seq<char>, slashes: nat)
    requires
        point.len() > 0,
        point.last() != '/',
    ensures
        point[0] == '/' ==> mount::mount_point_of(point + Seq::new(slashes, |i: int| '/')) == Ok::<
            Seq<char>,
            Seq<char>,
        >(point),
        point[0] != '/' ==> mount::mount_point_of(point + Seq::new(slashes, |i: int| '/')) is Err,
        mount::mount_point_of(Seq::new(slashes, |i: int| '/')) is Err,
    decreases slashes,
{
    lemma_slashes(point, slashes);
    let none = Seq::<char>::empty();
    lemma_slashes(none, slashes);
    assert(none + Seq::new(slashes, |i: int| '/') =~= Seq::new(slashes, |i: int| '/'));
}

proof fn lemma_slashes(point: Seq<char>, slashes: nat)
    requires
        point.len() == 0 || point.last() != '/',
    ensures
        text::trim_end_char(point + Seq::new(slashes, |i: int| '/'), '/') == point,
    decreases slashes,
{
    let s = point + Seq::new(slashes, |i: int| '/');
    if slashes == 0 {
        assert(s =~= point);
    } else {
        let fewer = (slashes - 1) as nat;
        lemma_slashes(point, fewer);
        assert(s.drop_last() =~= point + Seq::new(fewer, |i: int| '/'));
    }
}

/// The sizes of files add up.
pub proof fn law_sizes_add_up(a: Seq<mount::FileView>, f: mount::FileView)
    ensures
        mount::sizes(Seq::empty()) == 0,
        mount::sizes(a.push(f)) == mount::sizes(a) + f.size,
{
    assert(a.push(f).drop_last() =~= a);
}

/// The bytes of contents add up.
pub proof fn law_bytes_add_up(a: Seq<Vec<u8>>, c: Vec<u8>)
    ensures
        mount::byte_count(Seq::empty()) == 0,
        mount::byte_count(a.push(c)) == mount::byte_count(a) + c@.len(),
{
    assert(a.push(c).drop_last() =~= a);
}

/// The failure that is told is the first: every file before it was written, and
/// where there is none every file was.
pub proof fn law_first_failure(results: Seq<BatchWriteResult>, i: int)
    requires
        0 <= i <= results.len(),
    ensures
        ({
            let k = mount::first_failed(results, i);
            &&& i <= k <= results.len()
            &&& forall|j: int| i <= j < k ==> (#[trigger] results[j]).success
            &&& k < results.len() ==> !results[k].success
        }),
    decreases results.len() - i,
{
    if i < results.len() && results[i].success {
        law_first_failure(results, i + 1);
    }
}

/// The portions are the files in turn, and every file is written under its path in
/// the machine with its own contents.
pub proof fn law_portions_in_turn(
    batches: Seq<Seq<(Seq<char>, Seq<u8>)>>,
    files: Seq<mount::FileView>,
    contents: Seq<Vec<u8>>,
    size: usize,
)
    requires
        mount::portioned(batches, mount::written(files, contents), mount::portion(size)),
    ensures
        batches.flatten() == Seq::new(
            files.len(),
            |i: int| (files[i].vm_path, contents[i]@),
        ),
        forall|i: int|
            0 <= i < batches.len() ==> 0 < (#[trigger] batches[i]).len() && (batches[i].len()
                <= size || batches[i].len() == 1),
        forall|i: int|
            0 <= i < batches.len() - 1 ==> (#[trigger] batches[i]).len() == size || (size == 0
                && batches[i].len() == 1),
{
    lemma_flat(batches);
}

proof fn lemma_flat(batches: Seq<Seq<(Seq<char>, Seq<u8>)>>)
    ensures
        mount::flat(batches) == batches.flatten(),
    decreases batches.len(),
{
    if batches.len() > 0 {
        let front = batches.drop_last();
        lemma_flat(front);
        front.lemma_flatten_push(batches.last());
        assert(front.push(batches.last()) =~= batches);
    } else {
        assert(batches.flatten() =~= Seq::empty());
    }
}

/// Files and what is left out are put in order and nothing else is done to them,
/// as often as each is found.
pub proof fn law_order_keeps_what_is_found(
    files: Seq<mount::FileView>,
    skipped: Seq<mount::SkipView>,
)
    ensures
        mount::files_in_order(files).to_multiset() == files.to_multiset(),
        mount::skipped_in_order(skipped).to_multiset() == skipped.to_multiset(),
{
    lemma_files_kept(files);
    lemma_skipped_kept(skipped);
}

proof fn lemma_files_kept(s: Seq<mount::FileView>)
    ensures
        mount::files_in_order(s).to_multiset() == s.to_multiset(),
    decreases s.len(),
{
    if s.len() > 0 {
        let rest = s.drop_last();
        lemma_files_kept(rest);
        let front = mount::files_in_order(rest);
        let n = mount::slot(mount::vm_paths(front), s.last().vm_path);
        lemma_slot_within(mount::vm_paths(front), s.last().vm_path);
        vstd::seq_lib::to_multiset_insert(front, n, s.last());
        rest.to_multiset_ensures();
        assert(rest.push(s.last()) =~= s);
    } else {
        assert(s =~= Seq::empty());
    }
}

proof fn lemma_slot_within(keys: Seq<Seq<char>>, key: Seq<char>)
    ensures
        0 <= mount::slot(keys, key) <= keys.len(),
    decreases keys.len(),
{
    if keys.len() > 0 {
        lemma_slot_within(keys.drop_last(), key);
    }
}

proof fn lemma_path_slot_within(keys: Seq<Seq<char>>, key: Seq<char>)
    ensures
        0 <= mount::path_slot(keys, key) <= keys.len(),
    decreases keys.len(),
{
    if keys.len() > 0 {
        lemma_path_slot_within(keys.drop_last(), key);
    }
}

proof fn lemma_skipped_kept(s: Seq<mount::SkipView>)
    ensures
        mount::skipped_in_order(s).to_multiset() == s.to_multiset(),
    decreases s.len(),
{
    if s.len() > 0 {
        let rest = s.drop_last();
        lemma_skipped_kept(rest);
        let front = mount::skipped_in_order(rest);
        let n = mount::path_slot(mount::skip_paths(front), s.last().host_path);
        lemma_path_slot_within(mount::skip_paths(front), s.last().host_path);
        vstd::seq_lib::to_multiset_insert(front, n, s.last());
        rest.to_multiset_ensures();
        assert(rest.push(s.last()) =~= s);
    } else {
        assert(s =~= Seq::empty());
    }
}

} // verus!
