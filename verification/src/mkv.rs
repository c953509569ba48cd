//! What the tool asks of `mkvmerge` and `mkvextract`, and what it makes of their answers.
//!
//! Running the programs and decoding their JSON output is left to the caller; this module
//! picks the subtitle tracks to fix, builds the command lines and judges exit statuses.
use vstd::prelude::*;
use vstd::string::StringExecFns;

use crate::text::{
    chars_to_string, copy_range, decimal, digit_char, joined, push_decimal, str_to_chars, trim, trim_bounds,
};

verus! {

/// Errors of the `mkvmerge` / `mkvextract` steps. Causes that come from the operating
/// system are kept as their message.
pub enum MkvError {
    /// The program could not be run.
    Execution { command: &'static str, source: String },
    /// The program ran and reported failure.
    CommandFailed { command: &'static str, stderr: String },
    /// The `mkvmerge -J` output was not the expected JSON.
    JsonParse(String),
    /// A temporary file could not be created.
    TempFile(String),
}

/// The `properties` object of a track in `mkvmerge -J` output.
pub struct TrackProperties {
    pub codec_id: Option<String>,
    pub track_name: Option<String>,
    pub language: Option<String>,
    pub language_ietf: Option<String>,
}

/// A track in `mkvmerge -J` output; `kind` is its `type` field.
pub struct Track {
    pub id: u64,
    pub kind: String,
    pub properties: TrackProperties,
}

/// The part of `mkvmerge -J` output that the tool reads.
pub struct MkvMergeOutput {
    pub tracks: Vec<Track>,
}

/// Represents an ASS/SSA subtitle track inside an MKV container.
#[derive(Debug, Clone, PartialEq, Eq)]
pub struct AssTrack {
    pub id: u64,
    pub codec_id: String,
    pub name: Option<String>,
    pub language: String,
}

/// A track to put back into the container in place of the one it had. Its new
/// content is the file that the caller holds for it.
pub struct ModifiedTrack<'a> {
    pub id: u64,
    pub language: &'a str,
    pub name: Option<&'a str>,
}

/// The characters of an optional string.
pub open spec fn opt_view(o: Option<String>) -> Option<Seq<char>> {
    match o {
        Some(s) => Some(s@),
        None => None,
    }
}

/// A subtitle track whose codec is ASS or SSA.
pub open spec fn is_ass_track(t: Track) -> bool {
    &&& t.kind@ == "subtitles"@
    &&& t.properties.codec_id matches Some(c) && (c@ == "S_TEXT/ASS"@ || c@ == "S_TEXT/SSA"@)
}

/// The track's language: its IETF tag, else its legacy code, else `und`.
pub open spec fn track_language(p: TrackProperties) -> Seq<char> {
    match p.language_ietf {
        Some(l) => l@,
        None => match p.language {
            Some(l) => l@,
            None => "und"@,
        },
    }
}

/// `a` is what the tool records of track `t`.
pub open spec fn describes(a: AssTrack, t: Track) -> bool {
    &&& a.id == t.id
    &&& opt_view(t.properties.codec_id) == Some(a.codec_id@)
    &&& opt_view(a.name) == opt_view(t.properties.track_name)
    &&& a.language@ == track_language(t.properties)
}

/// Positions of the ASS/SSA subtitle tracks among `ts`, in order.
pub open spec fn ass_track_positions(ts: Seq<Track>) -> Seq<int>
    decreases ts.len(),
{
    if ts.len() == 0 {
        seq![]
    } else if is_ass_track(ts.last()) {
        ass_track_positions(ts.drop_last()).push(ts.len() - 1)
    } else {
        ass_track_positions(ts.drop_last())
    }
}

fn clone_opt(o: &Option<String>) -> (r: Option<String>)
    ensures
        opt_view(r) == opt_view(*o),
{
    match o {
        Some(s) => Some(s.clone()),
        None => None,
    }
}

/// `r` records, in order, the ASS/SSA subtitle tracks of `ts`.
pub open spec fn records_ass_tracks(r: Seq<AssTrack>, ts: Seq<Track>) -> bool {
    let pos = ass_track_positions(ts);
    &&& r.len() == pos.len()
    &&& forall|k: int| 0 <= k < r.len() ==> describes(#[trigger] r[k], ts[pos[k]])
}

proof fn lemma_ass_track_positions_bound(ts: Seq<Track>)
    ensures
        forall|k: int|
            0 <= k < ass_track_positions(ts).len() ==> 0 <= #[trigger] ass_track_positions(ts)[k]
                < ts.len(),
    decreases ts.len(),
{
    if ts.len() > 0 {
        let rest = ts.drop_last();
        lemma_ass_track_positions_bound(rest);
        let p = ass_track_positions(ts);
        let q = ass_track_positions(rest);
        assert forall|k: int| 0 <= k < p.len() implies 0 <= #[trigger] p[k] < ts.len() by {
            if k < q.len() {
                assert(p[k] == q[k]);
            }
        }
    }
}

/// The positions are exactly those of the ASS/SSA subtitle tracks, increasing: whether
/// a track is picked depends on that track alone.
pub proof fn lemma_ass_track_positions_exact(ts: Seq<Track>)
    ensures
        forall|a: int, b: int|
            0 <= a < b < ass_track_positions(ts).len() ==> ass_track_positions(ts)[a]
                < ass_track_positions(ts)[b],
        forall|a: int|
            0 <= a < ass_track_positions(ts).len() ==> 0 <= #[trigger] ass_track_positions(ts)[a]
                < ts.len() && is_ass_track(ts[ass_track_positions(ts)[a]]),
        forall|k: int|
            0 <= k < ts.len() && is_ass_track(#[trigger] ts[k]) ==> ass_track_positions(
                ts,
            ).contains(k),
    decreases ts.len(),
{
    if ts.len() > 0 {
        let rest = ts.drop_last();
        lemma_ass_track_positions_exact(rest);
        let p = ass_track_positions(ts);
        let q = ass_track_positions(rest);
        assert forall|a: int| 0 <= a < q.len() implies p[a] == q[a] && ts[q[a]] == rest[q[a]] by {}
        assert forall|k: int| 0 <= k < ts.len() && is_ass_track(#[trigger] ts[k]) implies p.contains(
            k,
        ) by {
            if k < ts.len() - 1 {
                assert(rest[k] == ts[k]);
                let a = choose|a: int| 0 <= a < q.len() && q[a] == k;
                assert(p[a] == k);
            } else {
                assert(p[p.len() - 1] == k);
            }
        }
    }
}

/// `a` describes some ASS/SSA subtitle track of `ts`.
pub open spec fn describes_some_ass_track(a: AssTrack, ts: Seq<Track>) -> bool {
    exists|k: int| 0 <= k < ts.len() && is_ass_track(ts[k]) && #[trigger] describes(a, ts[k])
}

/// Every ASS/SSA subtitle track of the input is recorded, and every record describes one:
/// for a result `r` of `ass_tracks`, the tracks described are exactly the ASS/SSA ones,
/// in input order.
pub proof fn lemma_ass_tracks_cover_input(r: Seq<AssTrack>, ts: Seq<Track>)
    requires
        records_ass_tracks(r, ts),
    ensures
        forall|k: int|
            0 <= k < ts.len() && is_ass_track(#[trigger] ts[k]) ==> exists|m: int|
                0 <= m < r.len() && describes(r[m], ts[k]),
        forall|m: int| 0 <= m < r.len() ==> #[trigger] describes_some_ass_track(r[m], ts),
{
    lemma_ass_track_positions_exact(ts);
    let pos = ass_track_positions(ts);
    assert forall|k: int| 0 <= k < ts.len() && is_ass_track(#[trigger] ts[k]) implies exists|m: int|
        0 <= m < r.len() && describes(r[m], ts[k]) by {
        let m = choose|m: int| 0 <= m < pos.len() && pos[m] == k;
        assert(describes(r[m], ts[pos[m]]));
    }
    assert forall|m: int| 0 <= m < r.len() implies #[trigger] describes_some_ass_track(r[m], ts) by {
        let k = pos[m];
        assert(0 <= k < ts.len() && is_ass_track(ts[k]) && describes(r[m], ts[k]));
    }
}

/// The ASS/SSA subtitle tracks of a container, in order; video, audio and other
/// subtitle formats are left out.
pub fn ass_tracks(output: &MkvMergeOutput) -> (r: Vec<AssTrack>)
    ensures
        records_ass_tracks(r@, output.tracks@),
{
    let ts = &output.tracks;
    let subtitles = String::from_str("subtitles");
    let ass = String::from_str("S_TEXT/ASS");
    let ssa = String::from_str("S_TEXT/SSA");
    let mut out: Vec<AssTrack> = Vec::new();
    let mut i: usize = 0;
    while i < ts.len()
        invariant
            i <= ts.len(),
            subtitles@ == "subtitles"@,
            ass@ == "S_TEXT/ASS"@,
            ssa@ == "S_TEXT/SSA"@,
            records_ass_tracks(out@, ts@.take(i as int)),
        decreases ts.len() - i,
    {
        let t = &ts[i];
        let ghost prev = ts@.take(i as int);
        let ghost next = ts@.take(i + 1);
        assert(next.drop_last() =~= prev);
        assert(next.last() == *t);
        let ghost old_out = out@;
        if t.kind == subtitles {
            match &t.properties.codec_id {
                Some(codec) => {
                    if *codec == ass || *codec == ssa {
                        let language = match &t.properties.language_ietf {
                            Some(l) => l.clone(),
                            None => match &t.properties.language {
                                Some(l) => l.clone(),
                                None => String::from_str("und"),
                            },
                        };
                        out.push(
                            AssTrack {
                                id: t.id,
                                codec_id: codec.clone(),
                                name: clone_opt(&t.properties.track_name),
                                language,
                            },
                        );
                    }
                },
                None => {},
            }
        }
        proof {
            lemma_ass_track_positions_bound(prev);
            let pos = ass_track_positions(prev);
            let npos = ass_track_positions(next);
            if is_ass_track(*t) {
                assert(npos == pos.push(i as int));
                assert(out@ == old_out.push(out@.last()));
                assert(describes(out@.last(), next[i as int]));
            } else {
                assert(npos == pos);
                assert(out@ == old_out);
            }
            assert forall|k: int| 0 <= k < out@.len() implies describes(
                #[trigger] out@[k],
                next[npos[k]],
            ) by {
                if k < old_out.len() {
                    assert(out@[k] == old_out[k]);
                    assert(npos[k] == pos[k]);
                    assert(next[pos[k]] == prev[pos[k]]);
                }
            }
        }
        i = i + 1;
    }
    assert(ts@.take(ts.len() as int) =~= ts@);
    out
}

// ---------------------------------------------------------------------------
// Exit statuses

/// Judges how a program exited: failure carries its trimmed error output.
pub fn check_command_status(command: &'static str, success: bool, stderr: &str) -> (r: Result<
    (),
    MkvError,
>)
    ensures
        success ==> r is Ok,
        !success ==> (r matches Err(MkvError::CommandFailed { command: c, stderr: e }) && c
            == command && e@ == trim(stderr@)),
{
    if success {
        return Ok(());
    }
    let cs = str_to_chars(stderr);
    let (a, b) = trim_bounds(&cs);
    let t = copy_range(&cs, a, b);
    Err(MkvError::CommandFailed { command, stderr: chars_to_string(&t) })
}

/// Judges how the remuxing `mkvmerge` exited: exit code 1 only reports warnings and
/// counts as success.
pub fn check_repack_status(success: bool, exit_code: Option<i32>, stderr: &str) -> (r: Result<
    (),
    MkvError,
>)
    ensures
        (success || exit_code == Some(1i32)) ==> r is Ok,
        !(success || exit_code == Some(1i32)) ==> (r matches Err(
            MkvError::CommandFailed { command: c, stderr: e },
        ) && c@ == "mkvmerge"@ && e@ == trim(stderr@)),
{
    let ok = success || match exit_code {
        Some(code) => code == 1,
        None => false,
    };
    check_command_status("mkvmerge", ok, stderr)
}

// ---------------------------------------------------------------------------
// Command lines

/// `<track id>:<output file>`, the `mkvextract tracks` argument that sends one track
/// to a file.
pub open spec fn extract_target(track_id: u64, output_file: Seq<char>) -> Seq<char> {
    decimal(track_id as nat) + seq![':'] + output_file
}

/// The `mkvextract tracks` argument that writes track `track_id` to `output_file`.
pub fn extract_target_argument(track_id: u64, output_file: &str) -> (s: String)
    ensures
        s@ == extract_target(track_id, output_file@),
{
    let mut s = String::new();
    push_decimal(&mut s, track_id);
    s.append(":");
    proof {
        reveal_strlit(":");
    }
    s.append(output_file);
    assert(s@ =~= extract_target(track_id, output_file@));
    s
}

/// One argument of the remuxing `mkvmerge` command: literal text, or one of the files
/// that the caller holds.
pub enum RepackArg {
    Text(String),
    /// The new container being written.
    OutputFile,
    /// The container being fixed.
    SourceFile,
    /// The fixed subtitle file of the track at this position in the list.
    SubtitleFile(usize),
}

/// A remuxing argument with its text as characters.
pub enum RepackArgView {
    Text(Seq<char>),
    OutputFile,
    SourceFile,
    SubtitleFile(nat),
}

pub open spec fn arg_view(a: RepackArg) -> RepackArgView {
    match a {
        RepackArg::Text(s) => RepackArgView::Text(s@),
        RepackArg::OutputFile => RepackArgView::OutputFile,
        RepackArg::SourceFile => RepackArgView::SourceFile,
        RepackArg::SubtitleFile(i) => RepackArgView::SubtitleFile(i as nat),
    }
}

/// The track ids joined by commas.
pub open spec fn joined_ids(ts: Seq<ModifiedTrack>) -> Seq<char>
    decreases ts.len(),
{
    if ts.len() == 0 {
        seq![]
    } else if ts.len() == 1 {
        decimal(ts[0].id as nat)
    } else {
        joined_ids(ts.drop_last()) + seq![','] + decimal(ts.last().id as nat)
    }
}

/// The number of times `c` occurs in `s`.
pub open spec fn count_char(s: Seq<char>, c: char) -> nat
    decreases s.len(),
{
    if s.len() == 0 {
        0
    } else {
        count_char(s.drop_last(), c) + if s.last() == c {
            1nat
        } else {
            0nat
        }
    }
}

proof fn lemma_count_concat(a: Seq<char>, b: Seq<char>, c: char)
    ensures
        count_char(a + b, c) == count_char(a, c) + count_char(b, c),
    decreases b.len(),
{
    if b.len() == 0 {
        assert(a + b =~= a);
    } else {
        assert((a + b).drop_last() =~= a + b.drop_last());
        lemma_count_concat(a, b.drop_last(), c);
    }
}

proof fn lemma_decimal_digits(n: nat)
    ensures
        count_char(decimal(n), ',') == 0,
        decimal(n).len() >= 1,
    decreases n,
{
    let d = digit_char(n % 10);
    assert(d != ',');
    assert(count_char(Seq::<char>::empty(), ',') == 0);
    if n >= 10 {
        lemma_decimal_digits(n / 10);
        assert(decimal(n).drop_last() =~= decimal(n / 10));
        assert(decimal(n).last() == d);
    } else {
        assert(decimal(n).drop_last() =~= Seq::<char>::empty());
        assert(decimal(n).last() == d);
    }
}

/// The decimal ids of the tracks.
pub open spec fn id_texts(ts: Seq<ModifiedTrack>) -> Seq<Seq<char>> {
    ts.map_values(|t: ModifiedTrack| decimal(t.id as nat))
}

/// The excluded-track list names every track: it is the decimal ids joined by commas,
/// so it holds exactly one comma between each two ids and none elsewhere.
pub proof fn lemma_joined_ids_lists_every_track(ts: Seq<ModifiedTrack>)
    ensures
        joined_ids(ts) == joined(id_texts(ts), seq![',']),
        ts.len() >= 1 ==> count_char(joined_ids(ts), ',') == ts.len() - 1,
    decreases ts.len(),
{
    if ts.len() >= 1 {
        lemma_decimal_digits(ts.last().id as nat);
    }
    if ts.len() == 1 {
        assert(id_texts(ts) =~= seq![decimal(ts[0].id as nat)]);
    } else if ts.len() >= 2 {
        let rest = ts.drop_last();
        lemma_joined_ids_lists_every_track(rest);
        assert(id_texts(ts).drop_last() =~= id_texts(rest));
        assert(id_texts(ts).last() == decimal(ts.last().id as nat));
        lemma_count_concat(joined_ids(rest), seq![','], ',');
        lemma_count_concat(joined_ids(rest) + seq![','], decimal(ts.last().id as nat), ',');
        assert(seq![','].drop_last() =~= Seq::<char>::empty());
        assert(count_char(Seq::<char>::empty(), ',') == 0);
        assert(count_char(seq![','], ',') == 1);
    }
}

/// The arguments that add the fixed file of track `i`: its language, its name when it
/// has one, then the file.
pub open spec fn track_args(t: ModifiedTrack, i: nat) -> Seq<RepackArgView> {
    seq![RepackArgView::Text("--language"@), RepackArgView::Text("0:"@ + t.language@)] + match t.name {
        Some(n) => seq![RepackArgView::Text("--track-name"@), RepackArgView::Text("0:"@ + n@)],
        None => Seq::<RepackArgView>::empty(),
    } + seq![RepackArgView::SubtitleFile(i)]
}

/// The arguments for all fixed tracks, in order.
pub open spec fn all_track_args(ts: Seq<ModifiedTrack>) -> Seq<RepackArgView>
    decreases ts.len(),
{
    if ts.len() == 0 {
        seq![]
    } else {
        all_track_args(ts.drop_last()) + track_args(ts.last(), (ts.len() - 1) as nat)
    }
}

/// The remuxing command line: write the output file from the source container without
/// the replaced subtitle tracks, then add each fixed file with its language and name.
pub open spec fn repack_args(ts: Seq<ModifiedTrack>) -> Seq<RepackArgView> {
    seq![
        RepackArgView::Text("-o"@),
        RepackArgView::OutputFile,
        RepackArgView::Text("--subtitle-tracks"@),
        RepackArgView::Text(seq!['!'] + joined_ids(ts)),
        RepackArgView::SourceFile,
    ] + all_track_args(ts)
}

/// The positions named by the `SubtitleFile` arguments, in order.
pub open spec fn subtitle_files(args: Seq<RepackArgView>) -> Seq<nat>
    decreases args.len(),
{
    if args.len() == 0 {
        seq![]
    } else {
        match args.last() {
            RepackArgView::SubtitleFile(i) => subtitle_files(args.drop_last()).push(i),
            _ => subtitle_files(args.drop_last()),
        }
    }
}

proof fn lemma_subtitle_files_concat(a: Seq<RepackArgView>, b: Seq<RepackArgView>)
    ensures
        subtitle_files(a + b) == subtitle_files(a) + subtitle_files(b),
    decreases b.len(),
{
    if b.len() == 0 {
        assert(a + b =~= a);
        assert(subtitle_files(a) + subtitle_files(b) =~= subtitle_files(a));
    } else {
        assert((a + b).drop_last() =~= a + b.drop_last());
        lemma_subtitle_files_concat(a, b.drop_last());
        assert(subtitle_files(a + b) =~= subtitle_files(a) + subtitle_files(b));
    }
}

/// The remux adds every fixed file exactly once, in the order of the tracks: the
/// `SubtitleFile` arguments name positions 0, 1, ... up to the last track.
pub proof fn lemma_repack_adds_every_file_once(ts: Seq<ModifiedTrack>)
    ensures
        subtitle_files(repack_args(ts)) == Seq::new(ts.len(), |i: int| i as nat),
    decreases ts.len(),
{
    let head = seq![
        RepackArgView::Text("-o"@),
        RepackArgView::OutputFile,
        RepackArgView::Text("--subtitle-tracks"@),
        RepackArgView::Text(seq!['!'] + joined_ids(ts)),
        RepackArgView::SourceFile,
    ];
    assert(subtitle_files(head) =~= Seq::<nat>::empty()) by {
        reveal_with_fuel(subtitle_files, 6);
    }
    lemma_subtitle_files_concat(head, all_track_args(ts));
    lemma_all_track_files(ts);
    assert(subtitle_files(repack_args(ts)) =~= Seq::new(ts.len(), |i: int| i as nat));
}

proof fn lemma_all_track_files(ts: Seq<ModifiedTrack>)
    ensures
        subtitle_files(all_track_args(ts)) == Seq::new(ts.len(), |i: int| i as nat),
    decreases ts.len(),
{
    if ts.len() == 0 {
        assert(subtitle_files(all_track_args(ts)) =~= Seq::new(0, |i: int| i as nat));
    } else {
        let rest = ts.drop_last();
        lemma_all_track_files(rest);
        let t = ts.last();
        let n = (ts.len() - 1) as nat;
        lemma_subtitle_files_concat(all_track_args(rest), track_args(t, n));
        let names = match t.name {
            Some(x) => seq![RepackArgView::Text("--track-name"@), RepackArgView::Text("0:"@ + x@)],
            None => Seq::<RepackArgView>::empty(),
        };
        let lang = seq![RepackArgView::Text("--language"@), RepackArgView::Text("0:"@ + t.language@)];
        assert(subtitle_files(lang + names) =~= Seq::<nat>::empty()) by {
            reveal_with_fuel(subtitle_files, 5);
        }
        lemma_subtitle_files_concat(lang + names, seq![RepackArgView::SubtitleFile(n)]);
        assert(subtitle_files(seq![RepackArgView::SubtitleFile(n)]) =~= seq![n]) by {
            reveal_with_fuel(subtitle_files, 2);
        }
        assert(track_args(t, n) =~= lang + names + seq![RepackArgView::SubtitleFile(n)]);
        assert(subtitle_files(all_track_args(ts)) =~= Seq::new(ts.len(), |i: int| i as nat));
    }
}

fn text_arg(s: &str) -> (a: RepackArg)
    ensures
        arg_view(a) == RepackArgView::Text(s@),
{
    RepackArg::Text(String::from_str(s))
}

fn prefixed_arg(prefix: &str, s: &str) -> (a: RepackArg)
    ensures
        arg_view(a) == RepackArgView::Text(prefix@ + s@),
{
    let mut t = String::from_str(prefix);
    t.append(s);
    RepackArg::Text(t)
}

/// The arguments of the `mkvmerge` command that puts the fixed tracks back.
pub fn repack_arguments(tracks: &Vec<ModifiedTrack>) -> (r: Vec<RepackArg>)
    ensures
        r@.map_values(|a: RepackArg| arg_view(a)) == repack_args(tracks@),
{
    let mut ids = String::new();
    let mut k: usize = 0;
    while k < tracks.len()
        invariant
            k <= tracks.len(),
            ids@ == joined_ids(tracks@.take(k as int)),
        decreases tracks.len() - k,
    {
        assert(tracks@.take(k + 1).drop_last() =~= tracks@.take(k as int));
        if k > 0 {
            string_push_comma(&mut ids);
        }
        push_decimal(&mut ids, tracks[k].id);
        k = k + 1;
        proof {
            if k == 1 {
                assert(ids@ =~= joined_ids(tracks@.take(1)));
            } else {
                assert(ids@ =~= joined_ids(tracks@.take(k as int)));
            }
        }
    }
    assert(tracks@.take(tracks.len() as int) =~= tracks@);
    let mut r: Vec<RepackArg> = Vec::new();
    r.push(text_arg("-o"));
    r.push(RepackArg::OutputFile);
    r.push(text_arg("--subtitle-tracks"));
    r.push(prefixed_arg("!", ids.as_str()));
    r.push(RepackArg::SourceFile);
    proof {
        reveal_strlit("!");
        assert("!"@ =~= seq!['!']);
        assert(r@.take(5) =~= r@);
        assert(r@.take(5).map_values(|a: RepackArg| arg_view(a)) =~= seq![
            RepackArgView::Text("-o"@),
            RepackArgView::OutputFile,
            RepackArgView::Text("--subtitle-tracks"@),
            RepackArgView::Text(seq!['!'] + joined_ids(tracks@)),
            RepackArgView::SourceFile,
        ]);
        assert(r@.skip(5).map_values(|a: RepackArg| arg_view(a)) =~= all_track_args(
            tracks@.take(0),
        ));
    }
    let mut i: usize = 0;
    while i < tracks.len()
        invariant
            i <= tracks.len(),
            r.len() >= 5,
            r@.take(5).map_values(|a: RepackArg| arg_view(a)) == seq![
                RepackArgView::Text("-o"@),
                RepackArgView::OutputFile,
                RepackArgView::Text("--subtitle-tracks"@),
                RepackArgView::Text(seq!['!'] + joined_ids(tracks@)),
                RepackArgView::SourceFile,
            ],
            r@.skip(5).map_values(|a: RepackArg| arg_view(a)) == all_track_args(
                tracks@.take(i as int),
            ),
        decreases tracks.len() - i,
    {
        let t = &tracks[i];
        let ghost before = r@;
        r.push(text_arg("--language"));
        r.push(prefixed_arg("0:", t.language));
        match t.name {
            Some(n) => {
                r.push(text_arg("--track-name"));
                r.push(prefixed_arg("0:", n));
            },
            None => {},
        }
        r.push(RepackArg::SubtitleFile(i));
        proof {
            assert(tracks@.take(i + 1).drop_last() =~= tracks@.take(i as int));
            assert(tracks@.take(i + 1).last() == *t);
            assert(r@.take(5) =~= before.take(5));
            let added = r@.skip(before.len() as int).map_values(|a: RepackArg| arg_view(a));
            assert(added =~= track_args(*t, i as nat));
            assert(r@.skip(5) =~= before.skip(5) + r@.skip(before.len() as int));
            assert(r@.skip(5).map_values(|a: RepackArg| arg_view(a)) =~= before.skip(5).map_values(
                |a: RepackArg| arg_view(a),
            ) + added);
        }
        i = i + 1;
    }
    assert(tracks@.take(tracks.len() as int) =~= tracks@);
    assert(r@ =~= r@.take(5) + r@.skip(5));
    assert(r@.map_values(|a: RepackArg| arg_view(a)) =~= r@.take(5).map_values(
        |a: RepackArg| arg_view(a),
    ) + r@.skip(5).map_values(|a: RepackArg| arg_view(a)));
    r
}

fn string_push_comma(s: &mut String)
    ensures
        final(s)@ == old(s)@ + seq![','],
{
    crate::text::string_push(s, ',');
    assert(final(s)@ =~= old(s)@ + seq![',']) by {
        assert(old(s)@.push(',') =~= old(s)@ + seq![',']);
    }
}

} // verus!
