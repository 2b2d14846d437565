//! Where documents come from and digests go to: the device's cloud through the
//! `rmapi` program, or a local directory.
//!
//! The program lists, fetches and uploads; what it is asked, and what its answers
//! mean, is decided here. It reports no version of a document, so that
//! [`CloudDoc::version`] is always `None`.

use crate::text;
use crate::text::{
    append_chars, chars_of, from_utf8_lossy, has_suffix, keep_filled, lines, same, skip_char,
    split_char, string_of, trim, trim_char, without_prefix,
};
use vstd::prelude::*;
use vstd::string::*;
use vstd::utf8::*;

verus! {

// ---------------------------------------------------------------------------
// Documents
// ---------------------------------------------------------------------------
/// A document found in a watched path of the cloud.
#[derive(Debug, Clone)]
pub struct CloudDoc {
    /// The full path, such as `/Books/Author/Title`.
    pub path: String,
    /// The visible name, which is the last part of the path.
    pub name: String,
    /// The folder that it is in.
    pub folder: String,
    /// A version to tell changes by; `None` where there is none.
    pub version: Option<String>,
}

/// What a document in the cloud holds.
#[verifier::ext_equal]
pub struct DocView {
    pub path: Seq<char>,
    pub name: Seq<char>,
    pub folder: Seq<char>,
    pub version: Option<Seq<char>>,
}

impl View for CloudDoc {
    type V = DocView;

    open spec fn view(&self) -> DocView {
        DocView {
            path: self.path@,
            name: self.name@,
            folder: self.folder@,
            version: match self.version {
                Some(v) => Some(v@),
                None => None,
            },
        }
    }
}

/// What the documents hold.
pub open spec fn doc_views(docs: Seq<CloudDoc>) -> Seq<DocView> {
    Seq::new(docs.len(), |i: int| docs[i]@)
}

// ---------------------------------------------------------------------------
// The program
// ---------------------------------------------------------------------------
/// Why a command did not succeed.
#[derive(Debug)]
pub struct RunError {
    pub message: String,
}

/// A command that was run, with what came of it.
#[verifier::ext_equal]
pub enum Event {
    /// A command that succeeded or failed.
    Run { args: Seq<Seq<char>>, ok: bool },
    /// A command in a directory; `None` where it could not be started.
    RunIn { dir: Seq<char>, args: Seq<Seq<char>>, found: Option<bool> },
    /// A command with its output; `None` where it failed.
    Capture { args: Seq<Seq<char>>, out: Option<Seq<char>> },
}

/// The texts of the arguments.
pub open spec fn arg_views(args: Seq<&str>) -> Seq<Seq<char>> {
    Seq::new(args.len(), |i: int| args[i]@)
}

/// Runs commands of `rmapi`. The arguments never hold the program's own name. An
/// implementation runs each command once.
pub trait RmapiRunner {
    /// The commands that were run so far. An implementation that is verified has to say
    /// what they are: under the body that stands here the log could not grow, as the
    /// methods ask. The body is there for implementations in ordinary code, which have no
    /// way to write down a log.
    closed spec fn log(&self) -> Seq<Event> {
        arbitrary()
    }

    /// Runs a command.
    fn run(&mut self, args: &[&str]) -> (r: Result<(), RunError>)
        ensures
            final(self).log() == old(self).log().push(
                Event::Run { args: arg_views(args@), ok: r is Ok },
            ),
    ;

    /// Runs a command in a directory: whether it succeeded, or that it could not be
    /// started.
    fn try_run_in(&mut self, dir: &str, args: &[&str]) -> (r: Result<bool, RunError>)
        ensures
            final(self).log() == old(self).log().push(
                Event::RunIn {
                    dir: dir@,
                    args: arg_views(args@),
                    found: match r {
                        Ok(found) => Some(found),
                        Err(_) => None,
                    },
                },
            ),
    ;

    /// Runs a command and returns its output.
    fn run_capture(&mut self, args: &[&str]) -> (r: Result<String, RunError>)
        ensures
            final(self).log() == old(self).log().push(
                Event::Capture {
                    args: arg_views(args@),
                    out: match r {
                        Ok(out) => Some(out@),
                        Err(_) => None,
                    },
                },
            ),
    ;
}

// ---------------------------------------------------------------------------
// Listings
// ---------------------------------------------------------------------------
/// A line of a listing: whether it is a folder, and its name. `[d]` and a tab stand
/// before a folder, `[f]` and a tab before a file; other lines mean nothing.
pub open spec fn entry_of(line: Seq<char>) -> Option<(bool, Seq<char>)> {
    let t = text::trimmed(line);
    if text::starts_with(t, "[d]\t"@) {
        Some((true, t.skip("[d]\t"@.len() as int)))
    } else if text::starts_with(t, "[f]\t"@) {
        Some((false, t.skip("[f]\t"@.len() as int)))
    } else {
        None
    }
}

/// The path of an entry of a folder.
pub open spec fn child_path(dir: Seq<char>, child: Seq<char>) -> Seq<char> {
    if dir.len() > 0 && dir.last() == '/' {
        dir + child
    } else {
        dir + "/"@ + child
    }
}

/// The name ends with one of the suffixes.
pub open spec fn excluded(child: Seq<char>, suffixes: Seq<Seq<char>>) -> bool {
    exists|i: int| 0 <= i < suffixes.len() && text::ends_with(child, #[trigger] suffixes[i])
}

/// The document that an entry of a folder stands for.
pub open spec fn doc_of(dir: Seq<char>, child: Seq<char>) -> DocView {
    DocView { path: child_path(dir, child), name: child, folder: dir, version: None }
}

/// What a walk through folders comes to on given replies of the program.
#[verifier::ext_equal]
pub struct Walk {
    /// The documents found.
    pub docs: Seq<DocView>,
    /// The commands that the walk did not run.
    pub rest: Seq<Event>,
    /// No listing failed.
    pub ok: bool,
    /// The commands are those that the walk runs.
    pub told: bool,
}

/// The command that lists a folder.
pub open spec fn ls_args(dir: Seq<char>) -> Seq<Seq<char>> {
    seq!["-ni"@, "ls"@, dir]
}

/// A walk through a folder: its listing, then its lines in turn.
pub open spec fn dir_walk(dir: Seq<char>, suffixes: Seq<Seq<char>>, events: Seq<Event>) -> Walk
    decreases events.len(), 0nat,
{
    if events.len() == 0 {
        Walk { docs: seq![], rest: events, ok: true, told: false }
    } else {
        match events[0] {
            Event::Capture { args, out } => if args != ls_args(dir) {
                Walk { docs: seq![], rest: events, ok: true, told: false }
            } else {
                match out {
                    None => Walk { docs: seq![], rest: events.skip(1), ok: false, told: true },
                    Some(listing) => lines_walk(dir, suffixes, text::lines_of(listing), events.skip(1)),
                }
            },
            _ => Walk { docs: seq![], rest: events, ok: true, told: false },
        }
    }
}

/// A walk through lines of a folder's listing: a folder is walked through in turn,
/// and a file is a document unless its name is excluded. It ends where a listing
/// fails.
pub open spec fn lines_walk(
    dir: Seq<char>,
    suffixes: Seq<Seq<char>>,
    lines: Seq<Seq<char>>,
    events: Seq<Event>,
) -> Walk
    decreases events.len(), lines.len(),
{
    if lines.len() == 0 {
        Walk { docs: seq![], rest: events, ok: true, told: true }
    } else {
        let before = lines_walk(dir, suffixes, lines.drop_last(), events);
        if !before.ok || !before.told || before.rest.len() > events.len() {
            before
        } else {
            match entry_of(lines.last()) {
                None => before,
                Some((true, child)) => {
                    let inner = dir_walk(child_path(dir, child), suffixes, before.rest);
                    Walk { docs: before.docs + inner.docs, ..inner }
                },
                Some((false, child)) => if excluded(child, suffixes) {
                    before
                } else {
                    Walk { docs: before.docs.push(doc_of(dir, child)), ..before }
                },
            }
        }
    }
}

/// A walk leaves later commands alone.
proof fn dir_walk_extends(
    dir: Seq<char>,
    suffixes: Seq<Seq<char>>,
    events: Seq<Event>,
    more: Seq<Event>,
)
    requires
        dir_walk(dir, suffixes, events).told,
    ensures
        ({
            let w = dir_walk(dir, suffixes, events);
            &&& w.rest.len() < events.len()
            &&& dir_walk(dir, suffixes, events + more) == Walk { rest: w.rest + more, ..w }
        }),
    decreases events.len(), 0nat,
{
    assert((events + more).skip(1) =~= events.skip(1) + more);
    match events[0] {
        Event::Capture { args, out } => match out {
            Some(listing) => {
                lines_walk_extends(dir, suffixes, text::lines_of(listing), events.skip(1), more);
            },
            None => {},
        },
        _ => {},
    }
}

/// A walk leaves later commands alone.
pub(crate) proof fn lines_walk_extends(
    dir: Seq<char>,
    suffixes: Seq<Seq<char>>,
    lines: Seq<Seq<char>>,
    events: Seq<Event>,
    more: Seq<Event>,
)
    requires
        lines_walk(dir, suffixes, lines, events).told,
    ensures
        ({
            let w = lines_walk(dir, suffixes, lines, events);
            &&& w.rest.len() <= events.len()
            &&& lines_walk(dir, suffixes, lines, events + more) == Walk {
                rest: w.rest + more,
                ..w
            }
        }),
    decreases events.len(), lines.len(),
{
    if lines.len() > 0 {
        let before = lines_walk(dir, suffixes, lines.drop_last(), events);
        lines_walk_extends(dir, suffixes, lines.drop_last(), events, more);
        if before.ok {
            match entry_of(lines.last()) {
                Some((true, child)) => {
                    dir_walk_extends(child_path(dir, child), suffixes, before.rest, more);
                },
                _ => {},
            }
        }
    }
}

/// A walk that a failed listing ended goes no further.
proof fn lines_walk_ends(
    dir: Seq<char>,
    suffixes: Seq<Seq<char>>,
    lines: Seq<Seq<char>>,
    events: Seq<Event>,
    n: int,
)
    requires
        0 <= n <= lines.len(),
        !lines_walk(dir, suffixes, lines.take(n), events).ok,
    ensures
        lines_walk(dir, suffixes, lines, events) == lines_walk(
            dir,
            suffixes,
            lines.take(n),
            events,
        ),
    decreases lines.len(),
{
    if n == lines.len() {
        assert(lines.take(n) =~= lines);
    } else {
        assert(lines.drop_last().take(n) =~= lines.take(n));
        lines_walk_ends(dir, suffixes, lines.drop_last(), events, n);
    }
}

/// The document is one that a walk through `dir` may list: its name is not excluded,
/// its path is that of an entry of its folder, and the folder lies in `dir`.
pub open spec fn listable(doc: DocView, dir: Seq<char>, suffixes: Seq<Seq<char>>) -> bool {
    &&& !excluded(doc.name, suffixes)
    &&& doc == doc_of(doc.folder, doc.name)
    &&& dir.is_prefix_of(doc.folder)
}

/// A walk through a folder lists nothing but documents of the folder and those below
/// it, and none with an excluded suffix.
pub proof fn walk_lists_no_excluded(
    dir: Seq<char>,
    suffixes: Seq<Seq<char>>,
    events: Seq<Event>,
    i: int,
)
    requires
        0 <= i < dir_walk(dir, suffixes, events).docs.len(),
    ensures
        listable(dir_walk(dir, suffixes, events).docs[i], dir, suffixes),
    decreases events.len(), 0nat,
{
    match events[0] {
        Event::Capture { args, out } => match out {
            Some(listing) => {
                lines_list_no_excluded(dir, suffixes, text::lines_of(listing), events.skip(1), i);
            },
            None => {},
        },
        _ => {},
    }
}

/// The same of the lines of a listing.
proof fn lines_list_no_excluded(
    dir: Seq<char>,
    suffixes: Seq<Seq<char>>,
    lines: Seq<Seq<char>>,
    events: Seq<Event>,
    i: int,
)
    requires
        0 <= i < lines_walk(dir, suffixes, lines, events).docs.len(),
    ensures
        listable(lines_walk(dir, suffixes, lines, events).docs[i], dir, suffixes),
    decreases events.len(), lines.len(),
{
    if lines.len() > 0 {
        let before = lines_walk(dir, suffixes, lines.drop_last(), events);
        if i < before.docs.len() {
            lines_list_no_excluded(dir, suffixes, lines.drop_last(), events, i);
        } else {
            match entry_of(lines.last()) {
                Some((true, child)) => {
                    let path = child_path(dir, child);
                    let j = i - before.docs.len();
                    walk_lists_no_excluded(path, suffixes, before.rest, j);
                    let doc = dir_walk(path, suffixes, before.rest).docs[j];
                    assert(path.subrange(0, dir.len() as int) =~= dir);
                    assert(doc.folder.subrange(0, dir.len() as int) =~= doc.folder.subrange(
                        0,
                        path.len() as int,
                    ).subrange(0, dir.len() as int));
                },
                Some((false, child)) => {
                    assert(dir.subrange(0, dir.len() as int) =~= dir);
                },
                None => {},
            }
        }
    }
}

/// The name of an entry is not empty: the line does not end in white space.
proof fn entry_has_name(line: Seq<char>)
    ensures
        entry_of(line) matches Some((_, child)) ==> child.len() > 0,
{
    let t = text::trimmed(line);
    text::drop_while_ends(text::skip_while(line, text::blank()), text::blank());
    reveal_strlit("[d]\t");
    reveal_strlit("[f]\t");
    if text::starts_with(t, "[d]\t"@) && t.len() == 4 {
        assert(t.subrange(0, 4) =~= t);
        assert(t.last() == '\t');
    }
    if text::starts_with(t, "[f]\t"@) && t.len() == 4 {
        assert(t.subrange(0, 4) =~= t);
        assert(t.last() == '\t');
    }
}

/// Reads a line of a listing.
fn read_entry(line: &Vec<char>) -> (r: Option<(bool, Vec<char>)>)
    ensures
        match r {
            Some((folder, child)) => entry_of(line@) == Some((folder, child@)) && child@.len() > 0,
            None => entry_of(line@) is None,
        },
{
    proof {
        entry_has_name(line@);
    }
    let t = trim(line);
    match without_prefix(&t, &chars_of("[d]\t")) {
        Some(child) => Some((true, child)),
        None => match without_prefix(&t, &chars_of("[f]\t")) {
            Some(child) => Some((false, child)),
            None => None,
        },
    }
}

/// Makes the path of an entry of a folder.
fn path_in(dir: &str, child: &Vec<char>) -> (r: String)
    ensures
        r@ == child_path(dir@, child@),
{
    let d = chars_of(dir);
    let n = d.len();
    let mut path = dir.to_owned();
    if !(n > 0 && d[n - 1] == '/') {
        path.append("/");
    }
    append_chars(&mut path, child);
    path
}

/// Whether the name ends with one of the suffixes.
fn is_excluded(child: &Vec<char>, suffixes: &[String]) -> (r: bool)
    ensures
        r == excluded(child@, text::strings(suffixes@)),
{
    let mut i: usize = 0;
    while i < suffixes.len()
        invariant
            i <= suffixes@.len(),
            forall|j: int| 0 <= j < i ==> !text::ends_with(child@, #[trigger] text::strings(suffixes@)[j]),
        decreases suffixes@.len() - i,
    {
        if has_suffix(child, &chars_of(suffixes[i].as_str())) {
            assert(text::ends_with(child@, text::strings(suffixes@)[i as int]));
            return true;
        }
        i = i + 1;
    }
    false
}

/// The log after a walk holds what the walk ran behind what was there, and the
/// documents that it found are behind those that were there.
pub open spec fn walked(
    log: Seq<Event>,
    now: Seq<Event>,
    dir: Seq<char>,
    suffixes: Seq<Seq<char>>,
    found: Seq<DocView>,
    ok: bool,
) -> bool {
    let w = dir_walk(dir, suffixes, now.skip(log.len() as int));
    &&& log.is_prefix_of(now)
    &&& w.told
    &&& w.rest.len() == 0
    &&& w.ok == ok
    &&& w.docs == found
}

// ---------------------------------------------------------------------------
// The cloud
// ---------------------------------------------------------------------------
/// Lists, fetches and uploads through a runner.
#[derive(Debug)]
pub struct RmapiBackend<R: RmapiRunner> {
    runner: R,
}

impl<R: RmapiRunner> RmapiBackend<R> {
    /// The commands that were run so far.
    pub closed spec fn log(&self) -> Seq<Event> {
        self.runner.log()
    }

    /// A backend on the runner.
    pub fn new(runner: R) -> (b: Self)
        ensures
            b.log() == runner.log(),
    {
        RmapiBackend { runner }
    }

    /// Walks through a folder and those in it, and collects the documents whose
    /// names are not excluded.
    pub fn walk(&mut self, dir: &str, suffixes: &[String], out: &mut Vec<CloudDoc>) -> (r: Result<
        (),
        RunError,
    >)
        ensures
            doc_views(old(out)@).is_prefix_of(doc_views(final(out)@)),
            walked(
                old(self).log(),
                final(self).log(),
                dir@,
                text::strings(suffixes@),
                doc_views(final(out)@).skip(old(out)@.len() as int),
                r is Ok,
            ),
        decreases usize::MAX - dir@.len(),
    {
        let ghost log = self.log();
        let ghost suf = text::strings(suffixes@);
        let ghost had = doc_views(out@);
        let args: [&str; 3] = ["-ni", "ls", dir];
        assert(arg_views(args@) =~= ls_args(dir@));
        let listing = match self.runner.run_capture(&args) {
            Ok(listing) => listing,
            Err(e) => {
                assert(self.log().skip(log.len() as int)[0] == self.log()[log.len() as int]);
                assert(doc_views(out@).skip(out@.len() as int) =~= seq![]);
                return Err(e);
            },
        };
        let all = lines(&chars_of(listing.as_str()));
        let ghost called = Event::Capture { args: ls_args(dir@), out: Some(listing@) };
        let ghost base = log.push(called);
        assert(self.log() =~= base);
        let mut i: usize = 0;
        proof {
            assert(self.log().skip(base.len() as int) =~= seq![]);
            assert(text::texts(all@).take(0) =~= seq![]);
            assert(doc_views(out@).skip(had.len() as int) =~= seq![]);
        }
        while i < all.len()
            invariant
                i <= all@.len(),
                log == old(self).log(),
                suf == text::strings(suffixes@),
                had == doc_views(old(out)@),
                had.len() == old(out)@.len(),
                called == (Event::Capture { args: ls_args(dir@), out: Some(listing@) }),
                base == log.push(called),
                base.is_prefix_of(self.log()),
                had.is_prefix_of(doc_views(out@)),
                text::texts(all@) == text::lines_of(listing@),
                lines_walk(
                    dir@,
                    suf,
                    text::texts(all@).take(i as int),
                    self.log().skip(base.len() as int),
                ) == (Walk {
                    docs: doc_views(out@).skip(had.len() as int),
                    rest: seq![],
                    ok: true,
                    told: true,
                }),
            decreases all@.len() - i,
        {
            let ghost so_far = text::texts(all@).take(i + 1);
            let ghost events = self.log().skip(base.len() as int);
            let ghost found = doc_views(out@);
            proof {
                assert(so_far.drop_last() =~= text::texts(all@).take(i as int));
                assert(so_far.last() == all@[i as int]@);
            }
            match read_entry(&all[i]) {
                None => {},
                Some((folder, child)) => {
                    let path = path_in(dir, &child);
                    if folder {
                        let ghost before = self.log();
                        // A path only grows, and no text is longer than `usize::MAX`.
                        let length = path.as_str().unicode_len();
                        assert(length == path@.len());
                        let ended = self.walk(path.as_str(), suffixes, out);
                        proof {
                            let inner = self.log().skip(before.len() as int);
                            let now = self.log().skip(base.len() as int);
                            assert(now =~= events + inner);
                            assert(seq![] + inner =~= inner);
                            lines_walk_extends(dir@, suf, so_far.drop_last(), events, inner);
                            assert(doc_views(out@).skip(had.len() as int) =~= found.skip(
                                had.len() as int,
                            ) + doc_views(out@).skip(found.len() as int));
                            assert(lines_walk(dir@, suf, so_far, now).rest =~= seq![]);
                            assert(base.is_prefix_of(self.log()));
                            assert(had.is_prefix_of(doc_views(out@)));
                        }
                        match ended {
                            Ok(_) => {},
                            Err(e) => {
                                proof {
                                    let now = self.log().skip(base.len() as int);
                                    let full = self.log().skip(log.len() as int);
                                    lines_walk_ends(dir@, suf, text::texts(all@), now, i + 1);
                                    assert(full.skip(1) =~= now);
                                    assert(self.log().subrange(0, base.len() as int)[log.len() as int]
                                        == called);
                                    assert(full[0] == called);
                                }
                                return Err(e);
                            },
                        }
                    } else if !is_excluded(&child, suffixes) {
                        let doc = CloudDoc {
                            path,
                            name: string_of(&child, 0, child.len()),
                            folder: dir.to_owned(),
                            version: None,
                        };
                        proof {
                            assert(child@.subrange(0, child@.len() as int) =~= child@);
                            assert(doc@ == doc_of(dir@, child@));
                        }
                        out.push(doc);
                        proof {
                            assert(doc_views(out@) =~= found.push(doc_of(dir@, child@)));
                            assert(doc_views(out@).skip(had.len() as int) =~= found.skip(
                                had.len() as int,
                            ).push(doc_of(dir@, child@)));
                        }
                    }
                },
            }
            i = i + 1;
        }
        proof {
            let now = self.log().skip(base.len() as int);
            let full = self.log().skip(log.len() as int);
            assert(text::texts(all@).take(all@.len() as int) =~= text::texts(all@));
            assert(full.skip(1) =~= now);
            assert(self.log().subrange(0, base.len() as int)[log.len() as int] == called);
            assert(full[0] == called);
        }
        Ok(())
    }

    /// Creates a folder and every folder above it. The program fails on one that is
    /// there, which is ignored.
    pub fn mkdir_p(&mut self, folder: &str)
        ensures
            folders_made(old(self).log(), final(self).log(), folder@),
    {
        let ghost log = self.log();
        let parts = components(folder);
        let ghost comps = components_of(folder@);
        let mut path = String::new();
        let mut i: usize = 0;
        assert(comps.take(0) =~= seq![]);
        while i < parts.len()
            invariant
                i <= parts@.len(),
                log == old(self).log(),
                comps == components_of(folder@),
                comps == text::texts(parts@),
                path@ == folder_path(comps.take(i as int)),
                self.log().len() == log.len() + i,
                log.is_prefix_of(self.log()),
                forall|j: int|
                    0 <= j < i ==> is_run(
                        #[trigger] self.log()[log.len() + j],
                        mkdir_args(folder_path(comps.take(j + 1))),
                    ),
            decreases parts@.len() - i,
        {
            let ghost before = self.log();
            assert(comps.take(i + 1).drop_last() =~= comps.take(i as int));
            path.append("/");
            append_chars(&mut path, &parts[i]);
            assert(path@ =~= folder_path(comps.take(i + 1)));
            let args: [&str; 3] = ["-ni", "mkdir", path.as_str()];
            assert(arg_views(args@) =~= mkdir_args(path@));
            let _ = self.runner.run(&args);
            assert(log.is_prefix_of(self.log())) by {
                assert(self.log().subrange(0, log.len() as int) =~= before.subrange(
                    0,
                    log.len() as int,
                ));
            }
            assert forall|j: int| 0 <= j < i + 1 implies is_run(
                #[trigger] self.log()[log.len() + j],
                mkdir_args(folder_path(comps.take(j + 1))),
            ) by {
                if j < i {
                    assert(self.log()[log.len() + j] == before[log.len() + j]);
                }
            }
            i = i + 1;
        }
    }
}

/// The parts of a path between slashes.
pub open spec fn components_of(folder: Seq<char>) -> Seq<Seq<char>> {
    text::filled(text::split(text::trimmed_of(folder, '/'), text::only('/')))
}

/// Finds the parts of a path between slashes.
fn components(folder: &str) -> (r: Vec<Vec<char>>)
    ensures
        text::texts(r@) == components_of(folder@),
{
    let pieces = split_char(&trim_char(&chars_of(folder), '/'), '/');
    keep_filled(&pieces)
}

/// The path with the given parts, a slash before each.
pub open spec fn folder_path(parts: Seq<Seq<char>>) -> Seq<char>
    decreases parts.len(),
{
    if parts.len() == 0 {
        seq![]
    } else {
        folder_path(parts.drop_last()) + "/"@ + parts.last()
    }
}

/// The command that creates a folder.
pub open spec fn mkdir_args(path: Seq<char>) -> Seq<Seq<char>> {
    seq!["-ni"@, "mkdir"@, path]
}

/// The command that removes a document.
pub open spec fn rm_args(folder: Seq<char>, doc: Seq<char>) -> Seq<Seq<char>> {
    seq!["-ni"@, "rm"@, folder + "/"@ + doc]
}

/// The command that uploads a file into a folder.
pub open spec fn put_args(staged: Seq<char>, folder: Seq<char>) -> Seq<Seq<char>> {
    seq!["-ni"@, "put"@, staged, folder]
}

/// The command that downloads a document.
pub open spec fn get_args(path: Seq<char>) -> Seq<Seq<char>> {
    seq!["-ni"@, "get"@, path]
}

/// The command was run, with whatever came of it.
pub open spec fn is_run(event: Event, args: Seq<Seq<char>>) -> bool {
    event matches Event::Run { args: a, .. } && a == args
}

/// Each folder above a folder, and it itself, was created in turn.
pub open spec fn folders_made(log: Seq<Event>, now: Seq<Event>, folder: Seq<char>) -> bool {
    let comps = components_of(folder);
    &&& log.is_prefix_of(now)
    &&& now.len() == log.len() + comps.len()
    &&& forall|i: int|
        0 <= i < comps.len() ==> is_run(
            #[trigger] now[log.len() + i],
            mkdir_args(folder_path(comps.take(i + 1))),
        )
}

/// The folder was created, the document of that name removed, and the staged file
/// uploaded, which was what `ok` says.
pub open spec fn uploaded(
    log: Seq<Event>,
    now: Seq<Event>,
    staged: Seq<char>,
    folder: Seq<char>,
    doc: Seq<char>,
    ok: bool,
) -> bool {
    let n = now.len() as int;
    &&& n >= 2
    &&& folders_made(log, now.take(n - 2), folder)
    &&& is_run(now[n - 2], rm_args(folder, doc))
    &&& now[n - 1] == (Event::Run { args: put_args(staged, folder), ok })
}

/// The names of a downloaded file: where the program leaves it, and the one that it
/// is kept under.
#[derive(Debug)]
pub struct Fetched {
    pub produced: String,
    pub dest: String,
}

/// Lists, fetches and uploads documents.
pub trait Backend {
    /// Lists the documents under `root`, without those whose names end with one of
    /// the suffixes.
    fn list(&mut self, root: &str, exclude_suffixes: &[String]) -> Result<Vec<CloudDoc>, RunError>;

    /// Downloads a document into the directory `dir`; `None` if there is none.
    fn fetch(&mut self, dir: &str, doc: &CloudDoc) -> Result<Option<Fetched>, RunError>;

    /// Puts the file `staged` into a folder under a name, in place of one that is
    /// there. Where the backend does not take the file itself, it returns the path
    /// that the file is to be copied to.
    fn put(&mut self, staged: &str, folder: &str, name: &str) -> Result<Option<String>, RunError>;
}

impl<R: RmapiRunner> Backend for RmapiBackend<R> {
    fn list(&mut self, root: &str, exclude_suffixes: &[String]) -> (r: Result<
        Vec<CloudDoc>,
        RunError,
    >)
        ensures
            match r {
                Ok(docs) => walked(
                    old(self).log(),
                    final(self).log(),
                    root@,
                    text::strings(exclude_suffixes@),
                    doc_views(docs@),
                    true,
                ),
                Err(_) => exists|found: Seq<DocView>| #[trigger]
                    walked(
                        old(self).log(),
                        final(self).log(),
                        root@,
                        text::strings(exclude_suffixes@),
                        found,
                        false,
                    ),
            },
    {
        let mut docs: Vec<CloudDoc> = Vec::new();
        let ended = self.walk(root, exclude_suffixes, &mut docs);
        assert(doc_views(docs@).skip(0) =~= doc_views(docs@));
        match ended {
            Ok(_) => Ok(docs),
            Err(e) => {
                assert(walked(
                    old(self).log(),
                    self.log(),
                    root@,
                    text::strings(exclude_suffixes@),
                    doc_views(docs@),
                    false,
                ));
                Err(e)
            },
        }
    }

    fn fetch(&mut self, dir: &str, doc: &CloudDoc) -> (r: Result<Option<Fetched>, RunError>)
        ensures
            final(self).log() == old(self).log().push(
                Event::RunIn {
                    dir: dir@,
                    args: get_args(doc@.path),
                    found: match r {
                        Ok(Some(_)) => Some(true),
                        Ok(None) => Some(false),
                        Err(_) => None,
                    },
                },
            ),
            r matches Ok(Some(names)) ==> names.produced@ == doc@.name + ".rmdoc"@ && names.dest@
                == "rmdigest-"@ + doc@.name + ".rmdoc"@,
    {
        let args: [&str; 3] = ["-ni", "get", doc.path.as_str()];
        assert(arg_views(args@) =~= get_args(doc@.path));
        match self.runner.try_run_in(dir, &args) {
            Err(e) => Err(e),
            Ok(false) => Ok(None),
            Ok(true) => {
                let mut produced = doc.name.as_str().to_owned();
                produced.append(".rmdoc");
                let mut dest = "rmdigest-".to_owned();
                dest.append(doc.name.as_str());
                dest.append(".rmdoc");
                Ok(Some(Fetched { produced, dest }))
            },
        }
    }

    fn put(&mut self, staged: &str, folder: &str, name: &str) -> (r: Result<
        Option<String>,
        RunError,
    >)
        ensures
            uploaded(old(self).log(), final(self).log(), staged@, folder@, name@, r is Ok),
            r matches Ok(path) ==> path is None,
    {
        self.mkdir_p(folder);
        let ghost made = self.log();
        let mut doc = folder.to_owned();
        doc.append("/");
        doc.append(name);
        let rm: [&str; 3] = ["-ni", "rm", doc.as_str()];
        assert(arg_views(rm@) =~= rm_args(folder@, name@));
        let _ = self.runner.run(&rm);
        let put: [&str; 4] = ["-ni", "put", staged, folder];
        assert(arg_views(put@) =~= put_args(staged@, folder@));
        let ended = self.runner.run(&put);
        assert(self.log().take(self.log().len() - 2) =~= made);
        match ended {
            Ok(_) => Ok(None),
            Err(e) => Err(e),
        }
    }
}

/// The name of the file that is staged for an upload: the program takes the visible
/// name from it.
pub fn staged_name(name: &str) -> (r: String)
    ensures
        r@ == name@ + ".pdf"@,
{
    let mut file = name.to_owned();
    file.append(".pdf");
    file
}

// ---------------------------------------------------------------------------
// A local directory
// ---------------------------------------------------------------------------
/// A path below another: one that starts with a slash stands for itself.
pub open spec fn joined(base: Seq<char>, below: Seq<char>) -> Seq<char> {
    if (below.len() > 0 && below[0] == '/') || base.len() == 0 {
        below
    } else if base.last() == '/' {
        base + below
    } else {
        base + "/"@ + below
    }
}

/// Joins two paths.
pub fn join_path(base: &str, below: &str) -> (r: String)
    ensures
        r@ == joined(base@, below@),
{
    let b = chars_of(base);
    let c = chars_of(below);
    if (c.len() > 0 && c[0] == '/') || b.len() == 0 {
        return below.to_owned();
    }
    let mut path = base.to_owned();
    if b[b.len() - 1] != '/' {
        path.append("/");
    }
    path.append(below);
    path
}

/// A backend without a cloud: documents are put into a directory.
#[derive(Debug)]
pub struct LocalBackend {
    pub output_dir: String,
}

impl LocalBackend {
    /// A backend on the directory.
    pub fn new(output_dir: String) -> (b: Self)
        ensures
            b.output_dir == output_dir,
    {
        LocalBackend { output_dir }
    }
}

impl Backend for LocalBackend {
    fn list(&mut self, root: &str, exclude_suffixes: &[String]) -> (r: Result<
        Vec<CloudDoc>,
        RunError,
    >)
        ensures
            r is Ok,
            r->Ok_0@.len() == 0,
            *final(self) == *old(self),
    {
        Ok(Vec::new())
    }

    fn fetch(&mut self, dir: &str, doc: &CloudDoc) -> (r: Result<Option<Fetched>, RunError>)
        ensures
            r is Ok,
            r->Ok_0 is None,
            *final(self) == *old(self),
    {
        Ok(None)
    }

    fn put(&mut self, staged: &str, folder: &str, name: &str) -> (r: Result<
        Option<String>,
        RunError,
    >)
        ensures
            r is Ok,
            r->Ok_0 matches Some(path) && path@ == joined(
                old(self).output_dir@,
                name@ + ".pdf"@,
            ),
            *final(self) == *old(self),
    {
        let file = staged_name(name);
        Ok(Some(join_path(self.output_dir.as_str(), file.as_str())))
    }
}

// ---------------------------------------------------------------------------
// The program's configuration
// ---------------------------------------------------------------------------
/// What stands behind a key on a line: colons, white space and quotes around it are
/// left out.
pub open spec fn token_of(line: Seq<char>, k: Seq<char>) -> Seq<char> {
    let rest = text::trimmed(line).skip(k.len() as int);
    text::trimmed_of(text::trimmed(text::skip_while(rest, text::only(':'))), '"')
}

/// A line starts with the key and has something behind it.
pub open spec fn has_token(conf: Seq<char>, k: Seq<char>) -> bool {
    exists|i: int|
        0 <= i < text::lines_of(conf).len() && text::starts_with(text::trimmed(#[trigger] text::lines_of(conf)[i]), k)
            && token_of(text::lines_of(conf)[i], k).len() > 0
}

/// A configuration is blank unless it has a token for the device and one for the
/// user.
pub open spec fn blank_text(conf: Seq<char>) -> bool {
    !(has_token(conf, "devicetoken"@) && has_token(conf, "usertoken"@))
}

/// Whether a line starts with the key and has something behind it.
fn find_token(conf: &Vec<char>, k: &str) -> (r: bool)
    ensures
        r == has_token(conf@, k@),
{
    let all = lines(conf);
    let wanted = chars_of(k);
    let mut i: usize = 0;
    while i < all.len()
        invariant
            i <= all@.len(),
            text::texts(all@) == text::lines_of(conf@),
            wanted@ == k@,
            forall|j: int|
                0 <= j < i ==> !(text::starts_with(text::trimmed(#[trigger] text::lines_of(conf@)[j]), k@)
                    && token_of(text::lines_of(conf@)[j], k@).len() > 0),
        decreases all@.len() - i,
    {
        assert(text::lines_of(conf@)[i as int] == all@[i as int]@);
        match without_prefix(&trim(&all[i]), &wanted) {
            Some(rest) => {
                let token = trim_char(&trim(&skip_char(&rest, ':')), '"');
                if token.len() > 0 {
                    return true;
                }
            },
            None => {},
        }
        i = i + 1;
    }
    false
}

/// Whether the text of a configuration lacks a token.
pub fn is_blank_text(conf: &str) -> (r: bool)
    ensures
        r == blank_text(conf@),
{
    let v = chars_of(conf);
    !(find_token(&v, "devicetoken") && find_token(&v, "usertoken"))
}

/// Whether a configuration lacks a token.
pub fn is_blank_conf(bytes: &[u8]) -> (r: bool)
    ensures
        r == blank_text(text::lossy_text(bytes@)),
        valid_utf8(bytes@) ==> r == blank_text(decode_utf8(bytes@)),
{
    let text = from_utf8_lossy(bytes);
    is_blank_text(text.as_str())
}

/// The variables of the environment that tell where things are.
#[derive(Debug)]
pub struct Environment {
    pub rmapi_xdg_home: Option<String>,
    pub xdg_config_home: Option<String>,
    pub home: Option<String>,
    /// The directories in which programs are looked for.
    pub path: Vec<String>,
}

/// The path of the configuration: the program's own variable comes first, then the
/// one for configurations, then the home directory.
pub open spec fn conf_path(env: Environment) -> Seq<char> {
    match env.rmapi_xdg_home {
        Some(base) => joined(base@, "rmapi/rmapi.conf"@),
        None => match env.xdg_config_home {
            Some(base) => joined(base@, "rmapi/rmapi.conf"@),
            None => joined(
                match env.home {
                    Some(home) => home@,
                    None => seq![],
                },
                ".config/rmapi/rmapi.conf"@,
            ),
        },
    }
}

/// Finds the path of the configuration.
pub fn default_conf_path(env: &Environment) -> (r: String)
    ensures
        r@ == conf_path(*env),
{
    match &env.rmapi_xdg_home {
        Some(base) => join_path(base.as_str(), "rmapi/rmapi.conf"),
        None => match &env.xdg_config_home {
            Some(base) => join_path(base.as_str(), "rmapi/rmapi.conf"),
            None => match &env.home {
                Some(home) => join_path(home.as_str(), ".config/rmapi/rmapi.conf"),
                None => {
                    let none = String::new();
                    join_path(none.as_str(), ".config/rmapi/rmapi.conf")
                },
            },
        },
    }
}

/// The part of a path at the place `i` counts: it is not empty, and a dot counts
/// only at the start.
pub open spec fn counts(part: Seq<char>, i: int) -> bool {
    part.len() > 0 && (i == 0 || part != "."@)
}

/// How many of the first `n` parts of a path count.
pub open spec fn parts_counted(parts: Seq<Seq<char>>, n: int) -> nat
    decreases n,
{
    if n <= 0 {
        0
    } else {
        parts_counted(parts, n - 1) + if counts(parts[n - 1], n - 1) {
            1nat
        } else {
            0nat
        }
    }
}

/// The path names a place, and not a program to look for: it starts with a slash or
/// has more than one part.
pub open spec fn is_place(bin: Seq<char>) -> bool {
    let parts = text::split(bin, text::only('/'));
    (bin.len() > 0 && bin[0] == '/') || parts_counted(parts, parts.len() as int) > 1
}

/// Whether the path names a place.
fn names_place(bin: &str) -> (r: bool)
    ensures
        r == is_place(bin@),
{
    let v = chars_of(bin);
    if v.len() > 0 && v[0] == '/' {
        return true;
    }
    let parts = split_char(&v, '/');
    let dot = chars_of(".");
    let mut n: usize = 0;
    let mut i: usize = 0;
    while i < parts.len()
        invariant
            i <= parts@.len(),
            n <= i,
            dot@ == "."@,
            text::texts(parts@) == text::split(bin@, text::only('/')),
            n == parts_counted(text::texts(parts@), i as int),
        decreases parts@.len() - i,
    {
        assert(text::texts(parts@)[i as int] == parts@[i as int]@);
        if parts[i].len() > 0 && (i == 0 || !same(&parts[i], &dot)) {
            n = n + 1;
        }
        i = i + 1;
    }
    n > 1
}

/// `found` is what `is_file` can say of the path.
pub open spec fn said<F: Fn(&str) -> bool>(is_file: &F, path: Seq<char>, found: bool) -> bool {
    exists|p: &str| #[trigger] p@ == path && call_ensures(is_file, (p,), found)
}

/// The program was found in none of the directories.
pub open spec fn found_in_none<F: Fn(&str) -> bool>(
    is_file: &F,
    bin: Seq<char>,
    dirs: Seq<Seq<char>>,
) -> bool {
    forall|n: int| 0 <= n < dirs.len() ==> said(is_file, joined(#[trigger] dirs[n], bin), false)
}

/// The program was found: at its place, or in one of the directories and in none of
/// those before it.
pub open spec fn bin_found<F: Fn(&str) -> bool>(
    is_file: &F,
    bin: Seq<char>,
    dirs: Seq<Seq<char>>,
) -> bool {
    if is_place(bin) {
        said(is_file, bin, true)
    } else {
        exists|n: int|
            0 <= n < dirs.len() && said(is_file, joined(#[trigger] dirs[n], bin), true)
                && found_in_none(is_file, bin, dirs.take(n))
    }
}

/// The program was not found: not at its place, or in none of the directories.
pub open spec fn bin_missing<F: Fn(&str) -> bool>(
    is_file: &F,
    bin: Seq<char>,
    dirs: Seq<Seq<char>>,
) -> bool {
    if is_place(bin) {
        said(is_file, bin, false)
    } else {
        found_in_none(is_file, bin, dirs)
    }
}

/// Why the program cannot be used.
#[derive(Debug, Clone, Copy, PartialEq, Eq, Structural)]
pub enum RmapiError {
    /// The path names no file.
    NotAFile,
    /// No directory holds the program.
    NotOnPath,
    /// There is no configuration.
    NotPaired,
    /// The configuration lacks a token.
    BlankTokens,
}

/// Checks that a program is there: an explicit path must name a file, and a bare
/// name must be found in one of the directories.
pub fn resolve_bin<F: Fn(&str) -> bool>(bin: &str, dirs: &Vec<String>, is_file: &F) -> (r: Result<
    (),
    RmapiError,
>)
    requires
        forall|p: &str| call_requires(is_file, (p,)),
    ensures
        match r {
            Ok(_) => bin_found(is_file, bin@, text::strings(dirs@)),
            Err(e) => bin_missing(is_file, bin@, text::strings(dirs@)) && e == if is_place(bin@) {
                RmapiError::NotAFile
            } else {
                RmapiError::NotOnPath
            },
        },
{
    if names_place(bin) {
        let found = is_file(bin);
        assert(said(is_file, bin@, found));
        if found {
            return Ok(());
        }
        return Err(RmapiError::NotAFile);
    }
    let ghost all = text::strings(dirs@);
    let mut i: usize = 0;
    while i < dirs.len()
        invariant
            i <= dirs@.len(),
            all == text::strings(dirs@),
            !is_place(bin@),
            forall|p: &str| call_requires(is_file, (p,)),
            forall|n: int| 0 <= n < i ==> said(is_file, joined(#[trigger] all[n], bin@), false),
        decreases dirs@.len() - i,
    {
        let path = join_path(dirs[i].as_str(), bin);
        let p = path.as_str();
        let found = is_file(p);
        assert(p@ == joined(all[i as int], bin@));
        assert(said(is_file, joined(all[i as int], bin@), found));
        if found {
            assert(found_in_none(is_file, bin@, all.take(i as int)));
            return Ok(());
        }
        i = i + 1;
    }
    Err(RmapiError::NotOnPath)
}

/// Tells how to run the program. It can empty its own configuration, which would break
/// every later call; so a good configuration is kept, and put back when a call has done
/// that.
#[derive(Debug)]
pub struct ProcessRmapi {
    bin: String,
    conf_path: String,
    snapshot: Vec<u8>,
}

/// `conf` is what `read` can give for the path.
pub open spec fn read_from<G: Fn(&str) -> Option<Vec<u8>>>(
    read: &G,
    path: Seq<char>,
    conf: Option<Vec<u8>>,
) -> bool {
    exists|p: &str| #[trigger] p@ == path && call_ensures(read, (p,), conf)
}

impl ProcessRmapi {
    /// The program to run.
    pub closed spec fn bin(&self) -> Seq<char> {
        self.bin@
    }

    /// The path of the configuration.
    pub closed spec fn conf_path(&self) -> Seq<char> {
        self.conf_path@
    }

    /// The configuration to put back.
    pub closed spec fn snapshot(&self) -> Seq<u8> {
        self.snapshot@
    }

    /// The configuration to put back has its tokens.
    pub open spec fn well_formed(&self) -> bool {
        !blank_text(text::lossy_text(self.snapshot()))
    }

    /// With the program's usual name and the usual configuration.
    pub fn new<F: Fn(&str) -> bool, G: Fn(&str) -> Option<Vec<u8>>>(
        env: &Environment,
        is_file: &F,
        read: &G,
    ) -> (r: Result<Self, RmapiError>)
        requires
            forall|p: &str| call_requires(is_file, (p,)),
            forall|p: &str| call_requires(read, (p,)),
        ensures
            Self::made(r, "rmapi"@, conf_path(*env), text::strings(env.path@), is_file, read),
    {
        let path = default_conf_path(env);
        Self::with("rmapi".to_owned(), path, &env.path, is_file, read)
    }

    /// What can come of the construction: the program must be found, and the
    /// configuration be there with its tokens.
    pub open spec fn made<F: Fn(&str) -> bool, G: Fn(&str) -> Option<Vec<u8>>>(
        r: Result<Self, RmapiError>,
        bin: Seq<char>,
        path: Seq<char>,
        dirs: Seq<Seq<char>>,
        is_file: &F,
        read: &G,
    ) -> bool {
        match r {
            Ok(rmapi) => {
                &&& bin_found(is_file, bin, dirs)
                &&& exists|conf: Vec<u8>| #[trigger]
                    conf@ == rmapi.snapshot() && read_from(read, path, Some(conf))
                &&& rmapi.bin() == bin
                &&& rmapi.conf_path() == path
                &&& rmapi.well_formed()
            },
            Err(RmapiError::NotPaired) => bin_found(is_file, bin, dirs) && read_from(
                read,
                path,
                None,
            ),
            Err(RmapiError::BlankTokens) => bin_found(is_file, bin, dirs) && exists|conf: Vec<u8>|
                #[trigger] blank_text(text::lossy_text(conf@)) && read_from(read, path, Some(conf)),
            Err(e) => bin_missing(is_file, bin, dirs) && e == if is_place(bin) {
                RmapiError::NotAFile
            } else {
                RmapiError::NotOnPath
            },
        }
    }

    /// With an explicit program and configuration.
    pub fn with<F: Fn(&str) -> bool, G: Fn(&str) -> Option<Vec<u8>>>(
        bin: String,
        conf_path: String,
        dirs: &Vec<String>,
        is_file: &F,
        read: &G,
    ) -> (r: Result<Self, RmapiError>)
        requires
            forall|p: &str| call_requires(is_file, (p,)),
            forall|p: &str| call_requires(read, (p,)),
        ensures
            Self::made(r, bin@, conf_path@, text::strings(dirs@), is_file, read),
    {
        match resolve_bin(bin.as_str(), dirs, is_file) {
            Ok(_) => {},
            Err(e) => return Err(e),
        }
        let p = conf_path.as_str();
        match read(p) {
            None => {
                assert(p@ == conf_path@);
                Err(RmapiError::NotPaired)
            },
            Some(snapshot) => {
                assert(p@ == conf_path@);
                assert(read_from(read, conf_path@, Some(snapshot)));
                if is_blank_conf(snapshot.as_slice()) {
                    return Err(RmapiError::BlankTokens);
                }
                let made = ProcessRmapi { bin, conf_path, snapshot };
                assert(snapshot@ == made.snapshot());
                Ok(made)
            },
        }
    }

    /// The program to run.
    pub fn program(&self) -> (r: &str)
        ensures
            r@ == self.bin(),
    {
        self.bin.as_str()
    }

    /// The path of the configuration.
    pub fn conf(&self) -> (r: &str)
        ensures
            r@ == self.conf_path(),
    {
        self.conf_path.as_str()
    }

    /// What to do when the program has ended, whether for the first time or `again`, and
    /// the configuration holds `conf` then. Where it is missing or blank, the good one is
    /// put back, whatever the program came to. A program that fails and leaves it so is
    /// run once more.
    pub fn after_exit(&self, again: bool, success: bool, conf: Option<&[u8]>) -> (r: NextStep)
        ensures
            r.restore is Some <==> conf_blanked(conf),
            r.restore is Some ==> r.restore->0@ == self.snapshot(),
            self.well_formed() && r.restore is Some ==> !blank_text(
                text::lossy_text(r.restore->0@),
            ),
            r.then_do == if success {
                Next::Succeed
            } else if !again && conf_blanked(conf) {
                Next::Retry
            } else {
                Next::Fail
            },
    {
        let blanked = match conf {
            Some(bytes) => is_blank_conf(bytes),
            None => true,
        };
        let restore = if blanked {
            Some(&self.snapshot)
        } else {
            None
        };
        let then_do = if success {
            Next::Succeed
        } else if !again && blanked {
            Next::Retry
        } else {
            Next::Fail
        };
        NextStep { restore, then_do }
    }
}

/// What to do next in a call of the program.
pub struct NextStep<'a> {
    /// The bytes to write to the configuration first.
    pub restore: Option<&'a Vec<u8>>,
    /// What to do then.
    pub then_do: Next,
}

/// How a call of the program goes on.
#[derive(Debug, Clone, Copy, PartialEq, Eq, Structural)]
pub enum Next {
    /// The call is done.
    Succeed,
    /// Run the program again.
    Retry,
    /// The call has failed.
    Fail,
}

/// The configuration is missing, or lacks a token.
pub open spec fn conf_blanked(conf: Option<&[u8]>) -> bool {
    match conf {
        Some(bytes) => blank_text(text::lossy_text(bytes@)),
        None => true,
    }
}

} // verus!
