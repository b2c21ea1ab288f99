use vstd::prelude::*;

use crate::config::{join, Prompt, PromptLayout, PromptModel};
use crate::numbers::{decimal_text, signed_text};
use crate::shell::{duration_text, paint, painted};
use crate::table::string_views;
use crate::text::string_of;

verus! {

/// What the prompt shows besides its settings, as the shell found it.
pub struct PromptInfo {
    pub user: String,
    /// The working directory as it is to be shown.
    pub directory: String,
    pub host: String,
    /// The Git text, when `show-git` is on and the directory is a repository.
    pub git: Option<String>,
    /// The badge of the active room.
    pub badge: Option<String>,
    pub jobs: usize,
    /// How long the last command took, in milliseconds.
    pub duration_ms: Option<u64>,
    /// The time of day, when `show-time` is on.
    pub time: Option<String>,
    pub last_status: i32,
    /// Whether colors are on.
    pub color: bool,
}

pub struct PromptInfoModel {
    pub user: Seq<char>,
    pub directory: Seq<char>,
    pub host: Seq<char>,
    pub git: Option<Seq<char>>,
    pub badge: Option<Seq<char>>,
    pub jobs: usize,
    pub duration_ms: Option<u64>,
    pub time: Option<Seq<char>>,
    pub last_status: i32,
    pub color: bool,
}

impl View for PromptInfo {
    type V = PromptInfoModel;

    open spec fn view(&self) -> PromptInfoModel {
        PromptInfoModel {
            user: self.user@,
            directory: self.directory@,
            host: self.host@,
            git: crate::shell::text_option(self.git),
            badge: crate::shell::text_option(self.badge),
            jobs: self.jobs,
            duration_ms: self.duration_ms,
            time: crate::shell::text_option(self.time),
            last_status: self.last_status,
            color: self.color,
        }
    }
}

pub open spec fn piece_if(show: bool, piece: Seq<char>) -> Seq<Seq<char>> {
    if show {
        seq![piece]
    } else {
        Seq::empty()
    }
}

pub open spec fn jobs_label(count: usize) -> Seq<char> {
    "["@ + decimal_text(count as nat) + " "@ + (if count == 1 {
        "job"@
    } else {
        "jobs"@
    }) + "]"@
}

pub open spec fn git_piece(p: PromptModel, i: PromptInfoModel) -> Seq<Seq<char>> {
    match i.git {
        Some(g) => piece_if(p.show_git, painted(g, p.git_color, i.color)),
        None => Seq::empty(),
    }
}

pub open spec fn badge_piece(p: PromptModel, i: PromptInfoModel) -> Seq<Seq<char>> {
    match i.badge {
        Some(b) => seq![painted("["@ + b + "]"@, p.room_color, i.color)],
        None => Seq::empty(),
    }
}

pub open spec fn duration_piece(p: PromptModel, i: PromptInfoModel) -> Seq<Seq<char>> {
    match i.duration_ms {
        Some(d) => piece_if(
            p.show_duration && d >= p.duration_threshold_ms,
            painted("["@ + duration_text(d as nat) + "]"@, p.duration_color, i.color),
        ),
        None => Seq::empty(),
    }
}

pub open spec fn time_piece(p: PromptModel, i: PromptInfoModel) -> Seq<Seq<char>> {
    match i.time {
        Some(t) => piece_if(p.show_time, painted(t, p.time_color, i.color)),
        None => Seq::empty(),
    }
}

/// The pieces of information the prompt shows, in order.
pub open spec fn prompt_parts(p: PromptModel, i: PromptInfoModel) -> Seq<Seq<char>> {
    piece_if(p.show_name, painted(i.user, p.name_color, i.color)) + piece_if(
        p.show_dir,
        painted(i.directory, p.directory_color, i.color),
    ) + piece_if(p.show_host, painted(i.host, p.host_color, i.color)) + git_piece(p, i)
        + badge_piece(p, i) + piece_if(
        p.show_jobs && i.jobs > 0,
        painted(jobs_label(i.jobs), p.jobs_color, i.color),
    ) + duration_piece(p, i) + time_piece(p, i) + piece_if(
        p.show_status && i.last_status != 0,
        painted("["@ + signed_text(i.last_status as int) + "]"@, p.status_color, i.color),
    )
}

/// The prompt text: the information joined by the separator, then the
/// marker in the color of the last status, laid out as configured.
pub open spec fn spec_render_prompt(p: PromptModel, i: PromptInfoModel) -> Seq<char> {
    let parts = prompt_parts(p, i);
    let marker = painted(
        p.marker,
        if i.last_status == 0 {
            p.success_color
        } else {
            p.error_color
        },
        i.color,
    );
    let bottom = painted("╰─"@, p.frame_color, i.color);
    if parts.len() == 0 {
        match p.layout {
            PromptLayout::Framed => bottom + " "@ + marker + " "@,
            _ => marker + " "@,
        }
    } else {
        let information = join(parts, p.separator);
        let layout = if p.newline {
            PromptLayout::TwoLine
        } else {
            p.layout
        };
        match layout {
            PromptLayout::Compact => information + p.separator + marker + " "@,
            PromptLayout::TwoLine => information + "\n"@ + marker + " "@,
            PromptLayout::Framed => painted("╭─"@, p.frame_color, i.color) + " "@ + information
                + "\n"@ + bottom + " "@ + marker + " "@,
        }
    }
}

fn push_piece(parts: &mut Vec<String>, show: bool, piece: String)
    ensures
        string_views(final(parts)@) == string_views(old(parts)@) + piece_if(show, piece@),
{
    let ghost before = string_views(parts@);
    if show {
        parts.push(piece);
        assert(string_views(parts@) =~= before + seq![piece@]);
    } else {
        assert(before + Seq::<Seq<char>>::empty() =~= before);
    }
}

fn bracketed(text: &str) -> (r: String)
    ensures
        r@ == "["@ + text@ + "]"@,
{
    let mut r = String::from_str("[");
    r.append(text);
    r.append("]");
    r
}

fn push_names(parts: &mut Vec<String>, p: &Prompt, i: &PromptInfo)
    ensures
        string_views(final(parts)@) == string_views(old(parts)@) + piece_if(
            p.show_name,
            painted(i.user@, p.name_color, i.color),
        ) + piece_if(p.show_dir, painted(i.directory@, p.directory_color, i.color)) + piece_if(
            p.show_host,
            painted(i.host@, p.host_color, i.color),
        ),
{
    push_piece(parts, p.show_name, paint(i.user.as_str(), &p.name_color, i.color));
    push_piece(parts, p.show_dir, paint(i.directory.as_str(), &p.directory_color, i.color));
    push_piece(parts, p.show_host, paint(i.host.as_str(), &p.host_color, i.color));
}

fn push_git_and_badge(parts: &mut Vec<String>, p: &Prompt, i: &PromptInfo)
    ensures
        string_views(final(parts)@) == string_views(old(parts)@) + git_piece(p@, i@) + badge_piece(
            p@,
            i@,
        ),
{
    let ghost a = string_views(parts@);
    match &i.git {
        Some(g) => push_piece(parts, p.show_git, paint(g.as_str(), &p.git_color, i.color)),
        None => {},
    }
    assert(string_views(parts@) =~= a + git_piece(p@, i@));
    let ghost b = string_views(parts@);
    match &i.badge {
        Some(badge) => push_piece(
            parts,
            true,
            paint(bracketed(badge.as_str()).as_str(), &p.room_color, i.color),
        ),
        None => {},
    }
    assert(string_views(parts@) =~= b + badge_piece(p@, i@));
}

fn job_count_label(count: usize) -> (r: String)
    ensures
        r@ == jobs_label(count),
{
    let mut label = String::from_str("[");
    label.append(crate::numbers::decimal(count as u64).as_str());
    if count == 1 {
        label.append(" job]");
    } else {
        label.append(" jobs]");
    }
    proof {
        reveal_strlit(" job]");
        reveal_strlit(" jobs]");
        reveal_strlit(" ");
        reveal_strlit("job");
        reveal_strlit("jobs");
        reveal_strlit("]");
        assert(label@ =~= jobs_label(count));
    }
    label
}

fn push_duration_and_time(parts: &mut Vec<String>, p: &Prompt, i: &PromptInfo)
    ensures
        string_views(final(parts)@) == string_views(old(parts)@) + duration_piece(p@, i@)
            + time_piece(p@, i@),
{
    let ghost c = string_views(parts@);
    match i.duration_ms {
        Some(d) => push_piece(
            parts,
            p.show_duration && d >= p.duration_threshold_ms,
            paint(
                bracketed(crate::shell::format_duration(d).as_str()).as_str(),
                &p.duration_color,
                i.color,
            ),
        ),
        None => {},
    }
    assert(string_views(parts@) =~= c + duration_piece(p@, i@));
    let ghost e = string_views(parts@);
    match &i.time {
        Some(t) => push_piece(parts, p.show_time, paint(t.as_str(), &p.time_color, i.color)),
        None => {},
    }
    assert(string_views(parts@) =~= e + time_piece(p@, i@));
}

fn collect_parts(p: &Prompt, i: &PromptInfo) -> (r: Vec<String>)
    ensures
        string_views(r@) == prompt_parts(p@, i@),
{
    let mut parts: Vec<String> = Vec::new();
    assert(string_views(parts@) =~= Seq::<Seq<char>>::empty());
    push_names(&mut parts, p, i);
    push_git_and_badge(&mut parts, p, i);
    push_piece(
        &mut parts,
        p.show_jobs && i.jobs > 0,
        paint(job_count_label(i.jobs).as_str(), &p.jobs_color, i.color),
    );
    push_duration_and_time(&mut parts, p, i);
    push_piece(
        &mut parts,
        p.show_status && i.last_status != 0,
        paint(
            bracketed(crate::numbers::signed_decimal(i.last_status as i64).as_str()).as_str(),
            &p.status_color,
            i.color,
        ),
    );
    assert(string_views(parts@) =~= prompt_parts(p@, i@));
    parts
}

pub fn join_with(parts: &Vec<String>, separator: &str) -> (r: String)
    ensures
        r@ == join(string_views(parts@), separator@),
{
    let ghost ps = string_views(parts@);
    let mut r = String::new();
    let mut i: usize = 0;
    while i < parts.len()
        invariant
            i <= parts@.len(),
            ps == string_views(parts@),
            r@ == join(ps.take(i as int), separator@),
        decreases parts@.len() - i,
    {
        let ghost before = r@;
        if i > 0 {
            r.append(separator);
        }
        r.append(parts[i].as_str());
        proof {
            let next = ps.take(i + 1);
            assert(next.drop_last() =~= ps.take(i as int));
            assert(next.last() == parts@[i as int]@);
            if i == 0 {
                assert(r@ =~= next[0]);
            } else {
                assert(r@ =~= before + separator@ + next.last());
            }
        }
        i += 1;
    }
    assert(ps.take(parts@.len() as int) =~= ps);
    r
}

/// The prompt for the settings `p` and what the shell found, `i`.
pub fn render_prompt(p: &Prompt, i: &PromptInfo) -> (r: String)
    ensures
        r@ == spec_render_prompt(p@, i@),
{
    let parts = collect_parts(p, i);
    let marker = paint(
        p.marker.as_str(),
        if i.last_status == 0 {
            &p.success_color
        } else {
            &p.error_color
        },
        i.color,
    );
    let bottom = paint("╰─", &p.frame_color, i.color);
    if parts.len() == 0 {
        let mut r = String::new();
        match p.layout {
            PromptLayout::Framed => {
                r.append(bottom.as_str());
                r.append(" ");
            },
            _ => {},
        }
        r.append(marker.as_str());
        r.append(" ");
        return r;
    }
    let information = join_with(&parts, p.separator.as_str());
    let layout = if p.newline {
        PromptLayout::TwoLine
    } else {
        p.layout
    };
    let mut r = String::new();
    match layout {
        PromptLayout::Compact => {
            r.append(information.as_str());
            r.append(p.separator.as_str());
        },
        PromptLayout::TwoLine => {
            r.append(information.as_str());
            r.append("\n");
        },
        PromptLayout::Framed => {
            r.append(paint("╭─", &p.frame_color, i.color).as_str());
            r.append(" ");
            r.append(information.as_str());
            r.append("\n");
            r.append(bottom.as_str());
            r.append(" ");
        },
    }
    r.append(marker.as_str());
    r.append(" ");
    r
}


/// A path shown with the home directory written `~`.
pub open spec fn spec_abbreviate_home(path: Seq<char>, home: Option<Seq<char>>) -> Seq<char> {
    match home {
        None => path,
        Some(h) => if path == h {
            "~"@
        } else if h.len() > 0 && h.last() == '/' && crate::text::starts_with(path, h) {
            "~/"@ + path.subrange(h.len() as int, path.len() as int)
        } else if crate::text::starts_with(path, h + "/"@) {
            "~/"@ + path.subrange(h.len() + 1int, path.len() as int)
        } else {
            path
        },
    }
}

pub fn abbreviate_home(path: &str, home: Option<&str>) -> (r: String)
    ensures
        r@ == spec_abbreviate_home(path@, match home {
            Some(h) => Some(h@),
            None => None,
        }),
{
    let p = crate::text::chars_of(path);
    match home {
        None => String::from_str(path),
        Some(h) => {
            let hc = crate::text::chars_of(h);
            if crate::text::same(p.as_slice(), hc.as_slice()) {
                return String::from_str("~");
            }
            if hc.len() > 0 && hc[hc.len() - 1] == '/' && crate::text::has_prefix(
                p.as_slice(),
                hc.as_slice(),
            ) {
                let mut r = String::from_str("~/");
                r.append(string_of(crate::text::chars_between(p.as_slice(), hc.len(), p.len()).as_slice()).as_str());
                return r;
            }
            let mut with_slash = hc.clone();
            with_slash.push('/');
            proof {
                reveal_strlit("/");
                assert(with_slash@ =~= hc@ + "/"@);
            }
            if crate::text::has_prefix(p.as_slice(), with_slash.as_slice()) {
                let mut r = String::from_str("~/");
                r.append(string_of(crate::text::chars_between(p.as_slice(), with_slash.len(), p.len()).as_slice()).as_str());
                r
            } else {
                String::from_str(path)
            }
        },
    }
}

/// The last part of a directory, `~` for home and `/` for the root.
pub open spec fn spec_short_directory(path: Seq<char>, home: Option<Seq<char>>) -> Seq<char> {
    if home == Some(path) {
        "~"@
    } else {
        match crate::room::parent_length(path) {
            None => "/"@,
            Some(_) => {
                let t = crate::room::without_trailing_slashes(path, path.len() as int);
                let name = path.subrange(crate::room::last_slash(path, t) + 1, t);
                if name == ".."@ {
                    path
                } else {
                    name
                }
            },
        }
    }
}

pub fn short_directory(path: &str, home: Option<&str>) -> (r: String)
    ensures
        r@ == spec_short_directory(path@, match home {
            Some(h) => Some(h@),
            None => None,
        }),
{
    let p = crate::text::chars_of(path);
    match home {
        Some(h) => {
            let hc = crate::text::chars_of(h);
            if crate::text::same(p.as_slice(), hc.as_slice()) {
                return String::from_str("~");
            }
        },
        None => {},
    }
    match crate::room::parent_cut(p.as_slice()) {
        None => String::from_str("/"),
        Some(_) => {
            let t = crate::room::trailing_slashes_cut(p.as_slice(), p.len());
            proof {
                crate::room::lemma_without_trailing_slashes(p@, p@.len() as int);
                crate::room::lemma_last_slash(p@, t as int);
            }
            let start = match crate::room::slash_before(p.as_slice(), t) {
                Some(s) => s + 1,
                None => 0,
            };
            let name = crate::text::chars_between(p.as_slice(), start, t);
            if crate::text::is_text(name.as_slice(), "..") {
                proof {
                    reveal(crate::text::text_is);
                }
                String::from_str(path)
            } else {
                proof {
                    reveal(crate::text::text_is);
                }
                string_of(name.as_slice())
            }
        },
    }
}

proof fn lemma_ends_with_append(a: Seq<char>, b: Seq<char>)
    ensures
        crate::text::ends_with(a + b, b),
{
    assert((a + b).subrange(a.len() as int, (a + b).len() as int) =~= b);
}

/// Every prompt ends with its marker and a space, the marker painted in the
/// success color after a command that succeeded and in the error color after
/// one that failed, whatever the layout and the pieces shown.
#[verifier::spinoff_prover]
#[verifier::rlimit(60)]
pub proof fn lemma_marker_shows_last_status(p: PromptModel, i: PromptInfoModel)
    ensures
        i.last_status == 0 ==> crate::text::ends_with(
            spec_render_prompt(p, i),
            painted(p.marker, p.success_color, i.color) + " "@,
        ),
        i.last_status != 0 ==> crate::text::ends_with(
            spec_render_prompt(p, i),
            painted(p.marker, p.error_color, i.color) + " "@,
        ),
{
    let good = painted(p.marker, p.success_color, i.color) + " "@;
    let bad = painted(p.marker, p.error_color, i.color) + " "@;
    let tail = if i.last_status == 0 {
        good
    } else {
        bad
    };
    let out = spec_render_prompt(p, i);
    let parts = prompt_parts(p, i);
    let bottom = painted("╰─"@, p.frame_color, i.color);
    if parts.len() == 0 {
        match p.layout {
            PromptLayout::Framed => {
                assert(out == bottom + " "@ + tail);
                lemma_ends_with_append(bottom + " "@, tail);
            },
            _ => {
                assert(out == tail);
                lemma_ends_with_append(Seq::empty(), tail);
                assert(Seq::<char>::empty() + tail =~= tail);
            },
        }
    } else {
        let information = join(parts, p.separator);
        let layout = if p.newline {
            PromptLayout::TwoLine
        } else {
            p.layout
        };
        match layout {
            PromptLayout::Compact => {
                assert(out == information + p.separator + tail);
                lemma_ends_with_append(information + p.separator, tail);
            },
            PromptLayout::TwoLine => {
                assert(out == information + "\n"@ + tail);
                lemma_ends_with_append(information + "\n"@, tail);
            },
            PromptLayout::Framed => {
                let head = painted("╭─"@, p.frame_color, i.color) + " "@ + information + "\n"@
                    + bottom + " "@;
                assert(out == head + tail);
                lemma_ends_with_append(head, tail);
            },
        }
    }
}

} // verus!
