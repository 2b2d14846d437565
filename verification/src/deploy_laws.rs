//! What the commands for the cloud come to: what a walk finds, which folders an upload
//! makes, and where the program and its configuration are looked for.

use crate::deploy;
use crate::deploy::{CloudDoc, DocView, Environment, Event};
use crate::text;
use crate::text_laws;
use vstd::prelude::*;

verus! {

// ---------------------------------------------------------------------------
// Listings
// ---------------------------------------------------------------------------
/// A line tells of a folder where `[d]` and a tab stand before its name, of a file where
/// `[f]` and a tab do, and of nothing else.
pub proof fn lines_tell_folders_and_files(line: Seq<char>, name: Seq<char>)
    ensures
        deploy::entry_of(line) == Some((true, name)) <==> text::trimmed(line) == "[d]\t"@ + name,
        deploy::entry_of(line) == Some((false, name)) <==> text::trimmed(line) == "[f]\t"@ + name,
{
    let t = text::trimmed(line);
    reveal_strlit("[d]\t");
    reveal_strlit("[f]\t");
    text_laws::texts_start_and_end(t, "[d]\t"@, name);
    text_laws::texts_start_and_end(t, "[f]\t"@, name);
    assert(("[d]\t"@ + name).skip(4) =~= name);
    assert(("[f]\t"@ + name).skip(4) =~= name);
    assert("[d]\t"@[1] == 'd' && "[f]\t"@[1] == 'f');
    if text::starts_with(t, "[d]\t"@) && t == "[f]\t"@ + name {
        assert(t.subrange(0, 4)[1] == 'd');
    }
}

/// The name of the document ends with one of the suffixes.
pub open spec fn barred(name: Seq<char>, suffixes: Seq<Seq<char>>) -> bool {
    exists|i: int, front: Seq<char>|
        0 <= i < suffixes.len() && name == #[trigger] (front + suffixes[i])
}

/// A name is left out where it is some text with one of the suffixes behind it.
proof fn barred_names(name: Seq<char>, suffixes: Seq<Seq<char>>)
    ensures
        deploy::excluded(name, suffixes) == barred(name, suffixes),
{
    if deploy::excluded(name, suffixes) {
        let i = choose|i: int|
            0 <= i < suffixes.len() && text::ends_with(name, #[trigger] suffixes[i]);
        text_laws::texts_start_and_end(name, suffixes[i], Seq::empty());
        assert(name == name.take(name.len() - suffixes[i].len()) + suffixes[i]);
    }
    if barred(name, suffixes) {
        let (i, front) = choose|i: int, front: Seq<char>|
            0 <= i < suffixes.len() && name == #[trigger] (front + suffixes[i]);
        text_laws::texts_start_and_end(name, suffixes[i], front);
        assert(text::ends_with(name, suffixes[i]));
    }
}

/// The path of what lies in a folder: its name behind the folder's, with one slash between.
pub open spec fn path_below(folder: Seq<char>, name: Seq<char>) -> Seq<char> {
    folder + (if folder.len() > 0 && folder.last() == '/' {
        Seq::empty()
    } else {
        seq!['/']
    }) + name
}

/// A folder is walked through from the first line of its listing to the last: what is found
/// by more lines is found behind what was found by those before them.
pub proof fn listings_are_walked_in_order(
    dir: Seq<char>,
    suffixes: Seq<Seq<char>>,
    a: Seq<Seq<char>>,
    b: Seq<Seq<char>>,
    events: Seq<Event>,
)
    requires
        deploy::lines_walk(dir, suffixes, a, events).told,
        deploy::lines_walk(dir, suffixes, a, events).ok,
        deploy::lines_walk(
            dir,
            suffixes,
            b,
            deploy::lines_walk(dir, suffixes, a, events).rest,
        ).told,
    ensures
        ({
            let first = deploy::lines_walk(dir, suffixes, a, events);
            let then = deploy::lines_walk(dir, suffixes, b, first.rest);
            let all = deploy::lines_walk(dir, suffixes, a + b, events);
            &&& all.docs == first.docs + then.docs
            &&& all.rest == then.rest
            &&& all.ok == then.ok
            &&& all.told
        }),
    decreases b.len(),
{
    let first = deploy::lines_walk(dir, suffixes, a, events);
    let then = deploy::lines_walk(dir, suffixes, b, first.rest);
    deploy::lines_walk_extends(dir, suffixes, a, events, Seq::empty());
    if b.len() == 0 {
        assert(a + b =~= a);
        assert(first.docs + then.docs =~= first.docs);
    } else {
        let all = a + b;
        let before = deploy::lines_walk(dir, suffixes, b.drop_last(), first.rest);
        assert(all.drop_last() =~= a + b.drop_last());
        assert(before.told);
        listings_are_walked_in_order(dir, suffixes, a, b.drop_last(), events);
        deploy::lines_walk_extends(dir, suffixes, b.drop_last(), first.rest, Seq::empty());
        let whole = deploy::lines_walk(dir, suffixes, a + b, events);
        assert(whole.docs =~= first.docs + then.docs);
    }
}

/// A line finds the document that it tells of, unless its name is one that is left out;
/// or what is found in the folder that it tells of; and else nothing.
pub proof fn a_line_finds_what_it_tells(
    dir: Seq<char>,
    suffixes: Seq<Seq<char>>,
    line: Seq<char>,
    name: Seq<char>,
    events: Seq<Event>,
)
    ensures
        ({
            let w = deploy::lines_walk(dir, suffixes, seq![line], events);
            &&& text::trimmed(line) == "[f]\t"@ + name ==> w.ok && w.rest == events && w.docs == if barred(
                name,
                suffixes,
            ) {
                Seq::empty()
            } else {
                seq![
                    (DocView {
                        path: path_below(dir, name),
                        name,
                        folder: dir,
                        version: None,
                    }),
                ]
            }
            &&& text::trimmed(line) == "[d]\t"@ + name ==> {
                let inner = deploy::dir_walk(path_below(dir, name), suffixes, events);
                w.docs == inner.docs && w.rest == inner.rest && w.ok == inner.ok && w.told
                    == inner.told
            }
            &&& deploy::entry_of(line) is None ==> w.ok && w.rest == events && w.docs.len() == 0
        }),
{
    let one = seq![line];
    assert(one.drop_last() =~= Seq::empty());
    assert(one.last() == line);
    let before = deploy::lines_walk(dir, suffixes, one.drop_last(), events);
    assert(before.docs =~= Seq::empty());
    lines_tell_folders_and_files(line, name);
    barred_names(name, suffixes);
    reveal_strlit("/");
    assert("/"@ =~= seq!['/']);
    assert(path_below(dir, name) =~= deploy::child_path(dir, name));
    if text::trimmed(line) == "[f]\t"@ + name && !barred(name, suffixes) {
        assert(deploy::lines_walk(dir, suffixes, one, events).docs =~= seq![
            deploy::doc_of(dir, name),
        ]);
    }
    if text::trimmed(line) == "[d]\t"@ + name {
        let inner = deploy::dir_walk(path_below(dir, name), suffixes, events);
        assert(before.docs + inner.docs =~= inner.docs);
    }
}

/// A walk starts with the listing of its folder. Where that fails nothing is found and the
/// walk has failed; else it goes on with the lines of the listing.
pub proof fn a_walk_starts_with_a_listing(
    dir: Seq<char>,
    suffixes: Seq<Seq<char>>,
    out: Option<Seq<char>>,
    later: Seq<Event>,
)
    ensures
        ({
            let listed = Event::Capture { args: seq!["-ni"@, "ls"@, dir], out };
            let w = deploy::dir_walk(dir, suffixes, seq![listed] + later);
            match out {
                None => w.told && !w.ok && w.docs.len() == 0 && w.rest == later,
                Some(listing) => w == deploy::lines_walk(
                    dir,
                    suffixes,
                    text::lines_of(listing),
                    later,
                ),
            }
        }),
{
    let listed = Event::Capture { args: seq!["-ni"@, "ls"@, dir], out };
    assert((seq![listed] + later).skip(1) =~= later);
    assert((seq![listed] + later)[0] == listed);
}

/// What a walk came to was found by listings: its first command is the listing of its
/// folder.
pub proof fn a_walk_lists_its_folder(
    log: Seq<Event>,
    now: Seq<Event>,
    dir: Seq<char>,
    suffixes: Seq<Seq<char>>,
    found: Seq<DocView>,
    ok: bool,
)
    requires
        deploy::walked(log, now, dir, suffixes, found, ok),
    ensures
        log.len() < now.len(),
        forall|i: int| 0 <= i < log.len() ==> #[trigger] now[i] == log[i],
        now[log.len() as int] matches Event::Capture { args, .. } && args == seq!["-ni"@, "ls"@, dir],
        found == deploy::dir_walk(dir, suffixes, now.skip(log.len() as int)).docs,
{
    let events = now.skip(log.len() as int);
    assert(events[0] == now[log.len() as int]);
    assert forall|i: int| 0 <= i < log.len() implies #[trigger] now[i] == log[i] by {
        assert(now.subrange(0, log.len() as int)[i] == log[i]);
    }
}

/// A document holds what is told of it, each in its own field.
pub proof fn documents_hold_what_is_told(doc: CloudDoc)
    ensures
        doc@.path == doc.path@,
        doc@.name == doc.name@,
        doc@.folder == doc.folder@,
        doc@.version is Some <==> doc.version is Some,
        doc@.version is Some ==> doc@.version->Some_0 == doc.version->Some_0@,
{
}

// ---------------------------------------------------------------------------
// Uploads
// ---------------------------------------------------------------------------
/// A slash ends a part of a path, and nothing else does. Parts without text do not count.
#[verifier::spinoff_prover]
pub proof fn paths_are_parted_at_slashes(a: Seq<char>, b: Seq<char>)
    requires
        a.len() > 0,
        !a.contains('/'),
        b.len() > 0,
        b[0] != '/',
        b.last() != '/',
    ensures
        deploy::components_of(a) == seq![a],
        deploy::components_of(a.push('/') + b) == seq![a] + deploy::components_of(b),
        deploy::components_of(a.push('/').push('/') + b) == seq![a] + deploy::components_of(b),
        deploy::components_of(seq!['/'] + b) == deploy::components_of(b),
        deploy::components_of(b.push('/')) == deploy::components_of(b),
{
    let p = text::only('/');
    assert(a.contains(a[0]) && a.contains(a.last()));
    assert(text::skip_while(a, p) == a && text::drop_while(a, p) == a);
    assert(text::skip_while(b, p) == b && text::drop_while(b, p) == b);
    let once = a.push('/') + b;
    let twice = a.push('/').push('/') + b;
    assert(once[0] == a[0] && once.last() == b.last());
    assert(twice[0] == a[0] && twice.last() == b.last());
    let front = seq!['/'] + b;
    let back = b.push('/');
    assert(front.drop_first() =~= b);
    assert(back.drop_last() =~= b);
    assert(text::trimmed_of(front, '/') == b) by {
        assert(p(front[0]));
    }
    assert(text::trimmed_of(back, '/') == b) by {
        assert(back[0] == b[0]);
        assert(p(back.last()));
        reveal_with_fuel(text::drop_while, 2);
    }
    text_laws::texts_are_split_at_the_character(a, b, '/');
    let none = Seq::<char>::empty();
    assert(!none.contains('/'));
    text_laws::texts_are_split_at_the_character(none, b, '/');
    text_laws::texts_are_split_at_the_character(a, none.push('/') + b, '/');
    assert(a.push('/') + (none.push('/') + b) =~= twice);
    let parts = text::split(b, p);
    filled_behind(a, parts);
    filled_behind(a, seq![none] + parts);
    filled_behind(none, parts);
    filled_behind(a, Seq::empty());
    assert(seq![a] + Seq::<Seq<char>>::empty() =~= seq![a]);
    reveal(Seq::filter);
    assert(text::filled(Seq::empty()) =~= Seq::<Seq<char>>::empty());
    assert(deploy::components_of(a) =~= seq![a]);
}

/// What is not empty of a text and more.
proof fn filled_behind(a: Seq<char>, parts: Seq<Seq<char>>)
    ensures
        text::filled(seq![a] + parts) == if a.len() > 0 {
            seq![a] + text::filled(parts)
        } else {
            text::filled(parts)
        },
    decreases parts.len(),
{
    reveal(Seq::filter);
    let all = seq![a] + parts;
    if parts.len() == 0 {
        assert(all =~= seq![a]);
        text::filled_step(all);
        assert(all.drop_last() =~= Seq::empty());
        assert(text::filled(parts) =~= Seq::empty());
        assert(text::filled(all.drop_last()) =~= Seq::empty());
        assert(text::filled(all) =~= if a.len() > 0 {
            seq![a] + text::filled(parts)
        } else {
            text::filled(parts)
        });
    } else {
        filled_behind(a, parts.drop_last());
        text::filled_step(all);
        text::filled_step(parts);
        assert(all.drop_last() =~= seq![a] + parts.drop_last());
        assert(text::filled(all) =~= if a.len() > 0 {
            seq![a] + text::filled(parts)
        } else {
            text::filled(parts)
        });
    }
}

/// The command was run with these arguments.
pub open spec fn ran(event: Event, args: Seq<Seq<char>>) -> bool {
    event matches Event::Run { args: given, .. } && given == args
}

/// An upload makes every folder of the path, each in the one before it; then it removes
/// the document of that name from the folder; and last it puts the file there. Nothing else
/// is run, and it succeeds where the last command does.
#[verifier::spinoff_prover]
pub proof fn uploads_replace_in_their_folder(
    log: Seq<Event>,
    now: Seq<Event>,
    staged: Seq<char>,
    folder: Seq<char>,
    name: Seq<char>,
    ok: bool,
) -> (paths: Seq<Seq<char>>)
    requires
        deploy::uploaded(log, now, staged, folder, name, ok),
    ensures
        ({
            let parts = deploy::components_of(folder);
            let n = log.len() as int;
            &&& paths.len() == parts.len()
            &&& paths.len() > 0 ==> paths[0] == "/"@ + parts[0]
            &&& forall|i: int|
                0 < i < paths.len() ==> #[trigger] paths[i] == paths[i - 1] + "/"@ + parts[i]
            &&& now.len() == n + paths.len() + 2
            &&& now.take(n) == log
            &&& forall|i: int|
                0 <= i < paths.len() ==> ran(
                    #[trigger] now[n + i],
                    seq!["-ni"@, "mkdir"@, paths[i]],
                )
            &&& ran(now[n + paths.len()], seq!["-ni"@, "rm"@, folder + "/"@ + name])
            &&& now[n + paths.len() + 1] == (Event::Run {
                args: seq!["-ni"@, "put"@, staged, folder],
                ok,
            })
        }),
{
    let parts = deploy::components_of(folder);
    let n = log.len() as int;
    let made = now.take(now.len() - 2);
    let paths = Seq::new(parts.len(), |i: int| deploy::folder_path(parts.take(i + 1)));
    assert(now.take(n) =~= made.subrange(0, n));
    if parts.len() > 0 {
        assert(parts.take(1).drop_last() =~= Seq::empty());
        assert(deploy::folder_path(Seq::empty()) =~= Seq::<char>::empty());
        assert(paths[0] =~= "/"@ + parts[0]);
    }
    assert forall|i: int| 0 < i < paths.len() implies #[trigger] paths[i] == paths[i - 1] + "/"@
        + parts[i] by {
        assert(parts.take(i + 1).drop_last() =~= parts.take(i));
    }
    assert forall|i: int| 0 <= i < paths.len() implies ran(
        #[trigger] now[n + i],
        seq!["-ni"@, "mkdir"@, paths[i]],
    ) by {
        assert(deploy::is_run(made[log.len() + i], deploy::mkdir_args(paths[i])));
    }
    paths
}

// ---------------------------------------------------------------------------
// Paths
// ---------------------------------------------------------------------------
/// A path below another is that one, one slash and the path; a path that starts with a
/// slash stands for itself, and so does one below nothing.
pub proof fn paths_are_joined_by_one_slash(base: Seq<char>, below: Seq<char>)
    ensures
        below.len() > 0 && below[0] == '/' ==> deploy::joined(base, below) == below,
        base.len() == 0 ==> deploy::joined(base, below) == below,
        base.len() > 0 && base.last() != '/' && (below.len() == 0 || below[0] != '/')
            ==> deploy::joined(base, below) == base.push('/') + below && deploy::joined(
            base.push('/'),
            below,
        ) == base.push('/') + below,
{
    reveal_strlit("/");
    assert("/"@ =~= seq!['/']);
    assert(base + "/"@ + below =~= base.push('/') + below);
}

/// The configuration is looked for under the directory that the program has of its own,
/// else under that of configurations, else under the home directory.
pub proof fn the_configuration_has_its_place(env: Environment)
    ensures
        env.rmapi_xdg_home is Some ==> deploy::conf_path(env) == deploy::joined(
            env.rmapi_xdg_home->Some_0@,
            "rmapi/rmapi.conf"@,
        ),
        env.rmapi_xdg_home is None && env.xdg_config_home is Some ==> deploy::conf_path(env)
            == deploy::joined(env.xdg_config_home->Some_0@, "rmapi/rmapi.conf"@),
        env.rmapi_xdg_home is None && env.xdg_config_home is None && env.home is Some
            ==> deploy::conf_path(env) == deploy::joined(
            env.home->Some_0@,
            ".config/rmapi/rmapi.conf"@,
        ),
        env.rmapi_xdg_home is None && env.xdg_config_home is None && env.home is None
            ==> deploy::conf_path(env) == ".config/rmapi/rmapi.conf"@,
{
}

/// A path with a slash at its front is a place, and so is one with text before and behind
/// a slash; a name without a slash is none.
pub proof fn places_have_slashes(a: Seq<char>, b: Seq<char>)
    requires
        a.len() > 0,
        !a.contains('/'),
    ensures
        !deploy::is_place(a),
        deploy::is_place(seq!['/'] + b),
        b.len() > 0 && !b.contains('/') && b != "."@ ==> deploy::is_place(a.push('/') + b),
{
    let p = text::only('/');
    assert(a.contains(a[0]));
    text_laws::texts_are_split_at_the_character(a, b, '/');
    reveal_with_fuel(deploy::parts_counted, 3);
    if !b.contains('/') {
        text_laws::texts_are_split_at_the_character(b, b, '/');
        let parts = text::split(a.push('/') + b, p);
        assert(parts =~= seq![a, b]);
    }
}

/// Nothing is known of one program but that it is found or that it is not, where one thing
/// is said of every path.
pub proof fn a_program_is_found_or_missing<F: Fn(&str) -> bool>(
    is_file: &F,
    bin: Seq<char>,
    dirs: Seq<Seq<char>>,
)
    requires
        forall|p: &str, q: &str, x: bool, y: bool|
            p@ == q@ && #[trigger] call_ensures(is_file, (p,), x) && #[trigger] call_ensures(
                is_file,
                (q,),
                y,
            ) ==> x == y,
    ensures
        !(deploy::bin_found(is_file, bin, dirs) && deploy::bin_missing(is_file, bin, dirs)),
{
    if deploy::bin_found(is_file, bin, dirs) && deploy::bin_missing(is_file, bin, dirs) {
        if !deploy::is_place(bin) {
            let n = choose|n: int|
                0 <= n < dirs.len() && deploy::said(
                    is_file,
                    deploy::joined(#[trigger] dirs[n], bin),
                    true,
                ) && deploy::found_in_none(is_file, bin, dirs.take(n));
            assert(deploy::said(is_file, deploy::joined(dirs[n], bin), false));
        }
    }
}

// ---------------------------------------------------------------------------
// Tokens
// ---------------------------------------------------------------------------
/// All characters are the one.
pub open spec fn all_are(s: Seq<char>, q: char) -> bool {
    forall|i: int| 0 <= i < s.len() ==> #[trigger] s[i] == q
}

/// Behind the key stand at most colons, then white space, quotes and white space.
pub open spec fn says_nothing(
    line: Seq<char>,
    k: Seq<char>,
    colons: Seq<char>,
    blanks: Seq<char>,
    quotes: Seq<char>,
    more: Seq<char>,
) -> bool {
    &&& text::trimmed(line) == k + colons + blanks + quotes + more
    &&& all_are(colons, ':')
    &&& text_laws::all_blank(blanks)
    &&& all_are(quotes, '"')
    &&& text_laws::all_blank(more)
}

/// A line gives a token for a key where it starts with the key, and behind that stands more
/// than colons, white space and quotes.
pub proof fn tokens_are_more_than_quotes(conf: Seq<char>, k: Seq<char>)
    ensures
        deploy::has_token(conf, k) ==> exists|i: int|
            0 <= i < text::lines_of(conf).len() && #[trigger] gives_token(
                text::lines_of(conf)[i],
                k,
            ),
        (exists|i: int|
            0 <= i < text::lines_of(conf).len() && #[trigger] gives_token(
                text::lines_of(conf)[i],
                k,
            )) ==> deploy::has_token(conf, k),
{
    let lines = text::lines_of(conf);
    assert forall|i: int| 0 <= i < lines.len() implies #[trigger] gives_token(lines[i], k) == (
    text::starts_with(text::trimmed(lines[i]), k) && deploy::token_of(lines[i], k).len() > 0) by {
        token_is_more(lines[i], k);
    }
    if deploy::has_token(conf, k) {
        let i = choose|i: int|
            0 <= i < lines.len() && text::starts_with(text::trimmed(#[trigger] lines[i]), k)
                && deploy::token_of(lines[i], k).len() > 0;
        assert(gives_token(lines[i], k));
    }
}

/// The line gives a token for the key.
pub open spec fn gives_token(line: Seq<char>, k: Seq<char>) -> bool {
    &&& exists|rest: Seq<char>| text::trimmed(line) == #[trigger] (k + rest)
    &&& forall|colons: Seq<char>, blanks: Seq<char>, quotes: Seq<char>, more: Seq<char>|
        !says_nothing(line, k, colons, blanks, quotes, more)
}

/// A text of white space alone is trimmed to nothing.
proof fn blank_is_trimmed(s: Seq<char>)
    requires
        text_laws::all_blank(s),
    ensures
        text::trimmed(s).len() == 0,
{
    let (front, back) = text_laws::trimming_takes_the_white_space_around(s);
    let t = text::trimmed(s);
    if t.len() > 0 {
        assert(s[front.len() as int] == t[0]);
    }
}

/// A text of the character alone is trimmed to nothing.
proof fn character_is_trimmed(s: Seq<char>, q: char)
    requires
        all_are(s, q),
    ensures
        text::trimmed_of(s, q).len() == 0,
{
    let (front, back) = text_laws::trimming_takes_the_character_around(s, q);
    let t = text::trimmed_of(s, q);
    if t.len() > 0 {
        assert(s[front.len() as int] == t[0]);
    }
}

/// What satisfies the test at the front is skipped.
proof fn skips_all(front: Seq<char>, s: Seq<char>, p: spec_fn(char) -> bool)
    requires
        forall|i: int| 0 <= i < front.len() ==> p(#[trigger] front[i]),
        s.len() == 0 || !p(s[0]),
    ensures
        text::skip_while(front + s, p) == s,
    decreases front.len(),
{
    let all = front + s;
    if front.len() == 0 {
        assert(all =~= s);
    } else {
        assert(p(front[0]));
        assert(all.drop_first() =~= front.drop_first() + s);
        skips_all(front.drop_first(), s, p);
    }
}

/// What satisfies the test at the end is dropped.
proof fn drops_all(s: Seq<char>, back: Seq<char>, p: spec_fn(char) -> bool)
    requires
        forall|i: int| 0 <= i < back.len() ==> p(#[trigger] back[i]),
        s.len() == 0 || !p(s.last()),
    ensures
        text::drop_while(s + back, p) == s,
    decreases back.len(),
{
    let all = s + back;
    if back.len() == 0 {
        assert(all =~= s);
    } else {
        assert(p(back[back.len() - 1]));
        assert(all.drop_last() =~= s + back.drop_last());
        drops_all(s, back.drop_last(), p);
    }
}

/// Quotes in white space behind colons are no token.
proof fn quotes_are_no_token(
    line: Seq<char>,
    k: Seq<char>,
    colons: Seq<char>,
    blanks: Seq<char>,
    quotes: Seq<char>,
    more: Seq<char>,
)
    requires
        says_nothing(line, k, colons, blanks, quotes, more),
    ensures
        deploy::token_of(line, k).len() == 0,
{
    let rest = text::trimmed(line).skip(k.len() as int);
    let inner = blanks + quotes + more;
    assert(rest =~= colons + inner);
    assert forall|i: int| 0 <= i < colons.len() implies text::only(':')(#[trigger] colons[i]) by {}
    if inner.len() > 0 {
        if blanks.len() > 0 {
            assert(inner[0] == blanks[0]);
        } else if quotes.len() > 0 {
            assert(inner[0] == quotes[0]);
        } else {
            assert(inner[0] == more[0]);
        }
    }
    skips_all(colons, inner, text::only(':'));
    if quotes.len() == 0 {
        assert forall|i: int| 0 <= i < inner.len() implies text::white_space(#[trigger] inner[i]) by {
            if i < blanks.len() {
                assert(inner[i] == blanks[i]);
            } else {
                assert(inner[i] == more[i - blanks.len()]);
            }
        }
        blank_is_trimmed(inner);
        character_is_trimmed(text::trimmed(inner), '"');
    } else {
        let p = text::blank();
        assert forall|i: int| 0 <= i < blanks.len() implies p(#[trigger] blanks[i]) by {}
        assert forall|i: int| 0 <= i < more.len() implies p(#[trigger] more[i]) by {}
        assert(quotes[0] == '"' && quotes[quotes.len() - 1] == '"');
        assert(inner =~= blanks + (quotes + more));
        skips_all(blanks, quotes + more, p);
        drops_all(quotes, more, p);
        character_is_trimmed(quotes, '"');
    }
}

/// A line gives a token exactly where one is read from it.
#[verifier::spinoff_prover]
proof fn token_is_more(line: Seq<char>, k: Seq<char>)
    ensures
        gives_token(line, k) == (text::starts_with(text::trimmed(line), k) && deploy::token_of(
            line,
            k,
        ).len() > 0),
{
    let t = text::trimmed(line);
    let rest = t.skip(k.len() as int);
    if text::starts_with(t, k) {
        text_laws::texts_start_and_end(t, k, rest);
        assert(t == k + rest);
        if deploy::token_of(line, k).len() == 0 {
            let colons = text_laws::skipped(rest, text::only(':'));
            let inner = text::skip_while(rest, text::only(':'));
            let (blanks, more) = text_laws::trimming_takes_the_white_space_around(inner);
            let middle = text::trimmed(inner);
            let (a, b) = text_laws::trimming_takes_the_character_around(middle, '"');
            assert(middle =~= a + b);
            assert(t =~= k + colons + blanks + middle + more);
            assert forall|i: int| 0 <= i < colons.len() implies #[trigger] colons[i] == ':' by {
                assert(text::only(':')(colons[i]));
            }
            assert(says_nothing(line, k, colons, blanks, middle, more));
        } else if exists|colons: Seq<char>, blanks: Seq<char>, quotes: Seq<char>, more: Seq<char>|
            says_nothing(line, k, colons, blanks, quotes, more) {
            let (colons, blanks, quotes, more) = choose|
                colons: Seq<char>,
                blanks: Seq<char>,
                quotes: Seq<char>,
                more: Seq<char>,
            |
                says_nothing(line, k, colons, blanks, quotes, more);
            quotes_are_no_token(line, k, colons, blanks, quotes, more);
        }
    } else if exists|rest: Seq<char>| t == #[trigger] (k + rest) {
        let rest = choose|rest: Seq<char>| t == #[trigger] (k + rest);
        text_laws::texts_start_and_end(t, k, rest);
    }
}

/// A configuration is complete where a line gives a token for the device, and one for the
/// user.
pub proof fn configurations_have_two_tokens(conf: Seq<char>)
    ensures
        !deploy::blank_text(conf) <==> {
            &&& exists|i: int|
                0 <= i < text::lines_of(conf).len() && #[trigger] gives_token(
                    text::lines_of(conf)[i],
                    "devicetoken"@,
                )
            &&& exists|i: int|
                0 <= i < text::lines_of(conf).len() && #[trigger] gives_token(
                    text::lines_of(conf)[i],
                    "usertoken"@,
                )
        },
{
    tokens_are_more_than_quotes(conf, "devicetoken"@);
    tokens_are_more_than_quotes(conf, "usertoken"@);
}

} // verus!
