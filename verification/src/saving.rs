//! What becomes of the files while several of them are saved at once.

use vstd::prelude::*;

use crate::server;
use crate::server::DoingView;

verus! {

/// A file that is saved: its contents go to the file `temporary` first, which then moves to
/// `target`.
#[verifier::ext_equal]
pub struct SaveView {
    pub temporary: Seq<u8>,
    pub target: Seq<u8>,
    pub contents: Seq<u8>,
}

/// Something that happens to a save.
pub enum Event {
    /// While the contents are written, bytes reach the temporary file, as many as make this
    /// many in all.
    Wrote(nat),
    /// What was to do is done, or failed for this reason.
    Ended(Option<Seq<char>>),
}

/// The contents of each file, by its path. Of each save, what it does, and how many bytes
/// of its contents were written.
#[verifier::ext_equal]
pub struct Disk {
    pub files: Map<Seq<u8>, Seq<u8>>,
    pub doing: Seq<DoingView>,
    pub written: Seq<nat>,
}

/// Whether an event can happen to the save `by`: only what it does can end, only what it
/// writes can reach the file, writing is done when all bytes are written, and only a file
/// that is there can move.
pub open spec fn can_happen(saves: Seq<SaveView>, disk: Disk, by: int, event: Event) -> bool {
    &&& 0 <= by < saves.len()
    &&& match (disk.doing[by], event) {
        (DoingView::Write, Event::Wrote(to)) => disk.written[by] <= to
            <= saves[by].contents.len(),
        (_, Event::Wrote(_)) => false,
        (DoingView::Write, Event::Ended(None)) => disk.written[by] == saves[by].contents.len(),
        (DoingView::Move, Event::Ended(None)) => disk.files.dom().contains(saves[by].temporary),
        (DoingView::Answer(_), _) => false,
        (DoingView::GiveUp, _) => false,
        (_, Event::Ended(_)) => true,
    }
}

/// What an event makes of the files and of the save `by`. What the save does next is what
/// `Store::next` says.
pub open spec fn happen(saves: Seq<SaveView>, disk: Disk, by: int, event: Event) -> Disk {
    let save = saves[by];
    match event {
        Event::Wrote(to) => Disk {
            files: disk.files.insert(
                save.temporary,
                disk.files[save.temporary] + save.contents.subrange(
                    disk.written[by] as int,
                    to as int,
                ),
            ),
            written: disk.written.update(by, to),
            ..disk
        },
        Event::Ended(failure) => Disk {
            files: match (disk.doing[by], failure) {
                (DoingView::Create, None) => disk.files.insert(save.temporary, Seq::empty()),
                (DoingView::Move, None) => disk.files.insert(
                    save.target,
                    disk.files[save.temporary],
                ).remove(save.temporary),
                (DoingView::Remove(_), None) => disk.files.remove(save.temporary),
                _ => disk.files,
            },
            doing: disk.doing.update(by, server::save_step(disk.doing[by], failure)),
            ..disk
        },
    }
}

/// The files before any of `count` saves has begun.
pub open spec fn before_saves(files: Map<Seq<u8>, Seq<u8>>, count: nat) -> Disk {
    Disk {
        files,
        doing: Seq::new(count, |i: int| DoingView::Create),
        written: Seq::new(count, |i: int| 0),
    }
}

/// What the events make of the files, one behind the other, each of the save of its index.
pub open spec fn run(saves: Seq<SaveView>, disk: Disk, events: Seq<(int, Event)>) -> Disk
    decreases events.len(),
{
    if events.len() == 0 {
        disk
    } else {
        happen(saves, run(saves, disk, events.drop_last()), events.last().0, events.last().1)
    }
}

/// Whether each of the events can happen when it is its turn.
pub open spec fn can_run(saves: Seq<SaveView>, disk: Disk, events: Seq<(int, Event)>) -> bool
    decreases events.len(),
{
    events.len() > 0 ==> {
        &&& can_run(saves, disk, events.drop_last())
        &&& can_happen(
            saves,
            run(saves, disk, events.drop_last()),
            events.last().0,
            events.last().1,
        )
    }
}

/// Whether no two saves have the same temporary file, and none has the target of another,
/// or its own, for its temporary file.
pub open spec fn are_apart(saves: Seq<SaveView>) -> bool {
    &&& forall|i: int, j: int|
        0 <= i < saves.len() && 0 <= j < saves.len() && i != j ==> (#[trigger] saves[i]).temporary
            != (#[trigger] saves[j]).temporary
    &&& forall|i: int, j: int|
        0 <= i < saves.len() && 0 <= j < saves.len() ==> (#[trigger] saves[i]).temporary != (
        #[trigger] saves[j]).target
}

/// Whether the save `i` has moved its file to the target. Its request is then answered
/// with the status 204.
pub open spec fn has_moved(disk: Disk, i: int) -> bool {
    disk.doing[i] == DoingView::Answer(None)
}

/// Whether the file at `path` is as it was, and no save has moved to it.
pub open spec fn is_untouched(
    saves: Seq<SaveView>,
    files: Map<Seq<u8>, Seq<u8>>,
    disk: Disk,
    path: Seq<u8>,
) -> bool {
    &&& disk.files.dom().contains(path) == files.dom().contains(path)
    &&& files.dom().contains(path) ==> disk.files[path] == files[path]
    &&& forall|i: int|
        0 <= i < saves.len() && (#[trigger] saves[i]).target == path ==> !has_moved(disk, i)
}

/// Whether the file at `path` holds all that the save `i` saves there, and nothing else.
pub open spec fn is_saved(saves: Seq<SaveView>, disk: Disk, path: Seq<u8>, i: int) -> bool {
    &&& 0 <= i < saves.len()
    &&& saves[i].target == path
    &&& has_moved(disk, i)
    &&& disk.files.dom().contains(path)
    &&& disk.files[path] == saves[i].contents
}

/// Whether the temporary file of the save `i` holds what the save has written so far, and
/// nothing else, from when it is created until it is moved.
pub open spec fn is_sound(saves: Seq<SaveView>, disk: Disk, i: int) -> bool {
    let save = saves[i];
    match disk.doing[i] {
        DoingView::Create => disk.written[i] == 0,
        DoingView::Write => {
            &&& disk.written[i] <= save.contents.len()
            &&& disk.files.dom().contains(save.temporary)
            &&& disk.files[save.temporary] == save.contents.take(disk.written[i] as int)
        },
        DoingView::Sync | DoingView::Move => {
            &&& disk.files.dom().contains(save.temporary)
            &&& disk.files[save.temporary] == save.contents
        },
        _ => true,
    }
}

spec fn all_sound(
    saves: Seq<SaveView>,
    files: Map<Seq<u8>, Seq<u8>>,
    disk: Disk,
    path: Seq<u8>,
) -> bool {
    &&& disk.doing.len() == saves.len()
    &&& disk.written.len() == saves.len()
    &&& forall|i: int| 0 <= i < saves.len() ==> #[trigger] is_sound(saves, disk, i)
    &&& is_untouched(saves, files, disk, path) || exists|i: int| is_saved(saves, disk, path, i)
}

proof fn lemma_happen(
    saves: Seq<SaveView>,
    files: Map<Seq<u8>, Seq<u8>>,
    disk: Disk,
    path: Seq<u8>,
    by: int,
    event: Event,
)
    requires
        are_apart(saves),
        forall|i: int| 0 <= i < saves.len() ==> (#[trigger] saves[i]).temporary != path,
        all_sound(saves, files, disk, path),
        can_happen(saves, disk, by, event),
    ensures
        all_sound(saves, files, happen(saves, disk, by, event), path),
{
    let next = happen(saves, disk, by, event);
    let save = saves[by];
    let n = disk.written[by] as int;
    assert(is_sound(saves, disk, by));
    assert(save.contents.take(0) =~= Seq::empty());
    assert(save.contents.take(save.contents.len() as int) =~= save.contents);
    if let Event::Wrote(to) = event {
        assert(save.contents.take(n) + save.contents.subrange(n, to as int)
            =~= save.contents.take(to as int));
    }
    assert forall|i: int| 0 <= i < saves.len() implies #[trigger] is_sound(saves, next, i) by {
        assert(is_sound(saves, disk, i));
        assert(saves[i].temporary != saves[by].target);
    }
    if has_moved(next, by) && save.target == path {
        assert(is_saved(saves, next, path, by));
    } else if is_untouched(saves, files, disk, path) {
        assert(is_untouched(saves, files, next, path));
    } else {
        let i = choose|i: int| is_saved(saves, disk, path, i);
        assert(is_saved(saves, next, path, i));
    }
}

proof fn lemma_run(
    saves: Seq<SaveView>,
    files: Map<Seq<u8>, Seq<u8>>,
    events: Seq<(int, Event)>,
    path: Seq<u8>,
)
    requires
        are_apart(saves),
        forall|i: int| 0 <= i < saves.len() ==> (#[trigger] saves[i]).temporary != path,
        can_run(saves, before_saves(files, saves.len()), events),
    ensures
        all_sound(saves, files, run(saves, before_saves(files, saves.len()), events), path),
    decreases events.len(),
{
    let start = before_saves(files, saves.len());
    if events.len() == 0 {
        assert(is_untouched(saves, files, start, path));
    } else {
        lemma_run(saves, files, events.drop_last(), path);
        lemma_happen(
            saves,
            files,
            run(saves, start, events.drop_last()),
            path,
            events.last().0,
            events.last().1,
        );
    }
}

/// Whatever the order in which any number of saves that are apart do their steps, and
/// wherever they stop, a file that is no temporary file is as it was before, or holds all
/// that one of the saves saves there. The latter is so from when the first of them has
/// moved.
pub proof fn law_saves_do_not_mix(
    saves: Seq<SaveView>,
    files: Map<Seq<u8>, Seq<u8>>,
    events: Seq<(int, Event)>,
    path: Seq<u8>,
)
    requires
        are_apart(saves),
        forall|i: int| 0 <= i < saves.len() ==> (#[trigger] saves[i]).temporary != path,
        can_run(saves, before_saves(files, saves.len()), events),
    ensures
        ({
            let disk = run(saves, before_saves(files, saves.len()), events);
            is_untouched(saves, files, disk, path) || exists|i: int| is_saved(saves, disk, path, i)
        }),
{
    lemma_run(saves, files, events, path);
}

/// A save moves its temporary file only when that holds all of the contents, and nothing
/// else, whatever the other saves do.
pub proof fn law_only_whole_files_move(
    saves: Seq<SaveView>,
    files: Map<Seq<u8>, Seq<u8>>,
    events: Seq<(int, Event)>,
    i: int,
)
    requires
        are_apart(saves),
        can_run(saves, before_saves(files, saves.len()), events),
        0 <= i < saves.len(),
    ensures
        ({
            let disk = run(saves, before_saves(files, saves.len()), events);
            disk.doing[i] is Move ==> disk.files.dom().contains(saves[i].temporary)
                && disk.files[saves[i].temporary] == saves[i].contents
        }),
{
    lemma_run(saves, files, events, saves[i].target);
    assert(is_sound(saves, run(saves, before_saves(files, saves.len()), events), i));
}

/// A save of which no step fails leaves what it saves at its target.
pub proof fn law_saves_end(save: SaveView, files: Map<Seq<u8>, Seq<u8>>)
    requires
        save.temporary != save.target,
    ensures
        ({
            let saves = seq![save];
            let done: (int, Event) = (0, Event::Ended(None));
            let events = seq![done, (0, Event::Wrote(save.contents.len())), done, done, done];
            let start = before_saves(files, 1);
            &&& can_run(saves, start, events)
            &&& is_saved(saves, run(saves, start, events), save.target, 0)
        }),
{
    let saves = seq![save];
    let done: (int, Event) = (0, Event::Ended(None));
    let wrote: (int, Event) = (0, Event::Wrote(save.contents.len()));
    let events = seq![done, wrote, done, done, done];
    let start = before_saves(files, 1);
    let e4 = events.drop_last();
    let e3 = e4.drop_last();
    let e2 = e3.drop_last();
    let e1 = e2.drop_last();
    assert(e1.drop_last() =~= Seq::empty());
    assert(run(saves, start, e1.drop_last()) == start);
    let d1 = run(saves, start, e1);
    let d2 = run(saves, start, e2);
    let d3 = run(saves, start, e3);
    let d4 = run(saves, start, e4);
    assert(d1.doing[0] is Write && d1.files[save.temporary] == Seq::<u8>::empty());
    assert(Seq::empty() + save.contents.subrange(0, save.contents.len() as int) =~= save.contents);
    assert(d2.doing[0] is Write && d2.files[save.temporary] == save.contents);
    assert(d3.doing[0] is Sync && d4.doing[0] is Move);
    assert(can_run(saves, start, e1.drop_last()));
    assert(can_run(saves, start, e1));
    assert(can_run(saves, start, e2));
    assert(can_run(saves, start, e3));
    assert(can_run(saves, start, e4));
    assert(can_run(saves, start, events));
}

} // verus!
