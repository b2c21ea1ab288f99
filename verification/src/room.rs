use vstd::prelude::*;

use crate::config::{
    abbreviation_name_chars, after, alias_key, alias_name_chars, chars_result, clean, clean_line,
    fault_error, quoted_value, rest_after, spec_abbreviation_name, spec_alias_name, spec_quoted,
    ConfigError, ConfigFault, config_fault_message,
};
use crate::numbers::hex_digits;
use vstd::string::StringSliceAdditionalSpecFns;
use crate::state::fnv1a;
use crate::table::{string_views, Table};
use crate::text::{
    begins_text, char_views, chars_of, starts_with, is_ascii_alnum, is_text, lines_of, replace_all, split_once,
    split_whitespace, string_of, text_begins, text_is, trim,
};

verus! {

/// A room: the settings of a `.nsh-room` file that apply while the shell is
/// inside its directory.
#[derive(Debug, Clone)]
pub struct Room {
    pub path: String,
    pub name: String,
    pub environment: Table<String>,
    pub aliases: Table<Vec<String>>,
    pub abbreviations: Table<String>,
    pub badge: Option<String>,
    pub on_enter: Option<String>,
    pub on_leave: Option<String>,
    pub hash: String,
}

pub struct RoomModel {
    pub path: Seq<char>,
    pub name: Seq<char>,
    pub environment: Map<Seq<char>, Seq<char>>,
    pub aliases: Map<Seq<Seq<char>>, Seq<char>>,
    pub abbreviations: Map<Seq<char>, Seq<char>>,
    pub badge: Option<Seq<char>>,
    pub on_enter: Option<Seq<char>>,
    pub on_leave: Option<Seq<char>>,
    pub hash: Seq<char>,
}

pub open spec fn text_option(o: Option<String>) -> Option<Seq<char>> {
    match o {
        Some(s) => Some(s@),
        None => None,
    }
}

impl View for Room {
    type V = RoomModel;

    open spec fn view(&self) -> RoomModel {
        RoomModel {
            path: self.path@,
            name: self.name@,
            environment: self.environment.view(),
            aliases: self.aliases.view(),
            abbreviations: self.abbreviations.view(),
            badge: text_option(self.badge),
            on_enter: text_option(self.on_enter),
            on_leave: text_option(self.on_leave),
            hash: self.hash@,
        }
    }
}

pub open spec fn empty_room(path: Seq<char>, hash: Seq<char>) -> RoomModel {
    RoomModel {
        path,
        name: Seq::empty(),
        environment: Map::empty(),
        aliases: Map::empty(),
        abbreviations: Map::empty(),
        badge: None,
        on_enter: None,
        on_leave: None,
        hash,
    }
}

impl Default for Room {
    fn default() -> (r: Self)
        ensures
            r@ == empty_room(Seq::empty(), Seq::empty()),
    {
        Room {
            path: String::new(),
            name: String::new(),
            environment: Table::new(),
            aliases: Table::new(),
            abbreviations: Table::new(),
            badge: None,
            on_enter: None,
            on_leave: None,
            hash: String::new(),
        }
    }
}

/// A room's environment variable name: letters, digits and `_`.
pub open spec fn room_variable_name(v: Seq<char>) -> bool {
    v.len() > 0 && forall|i: int| 0 <= i < v.len() ==> is_ascii_alnum(#[trigger] v[i]) || v[i] == '_'
}

/// `value` below the directory `root`, as a path joins them.
pub open spec fn joined(root: Seq<char>, value: Seq<char>) -> Seq<char> {
    if root.len() == 0 {
        value
    } else if root.last() == '/' {
        root + value
    } else {
        root + "/"@ + value
    }
}

/// A value that names a path relative to the room: `.` or one that starts with `./`.
pub open spec fn relative_value(v: Seq<char>) -> bool {
    text_begins(v, "./"@) || text_is(v, "."@)
}

pub open spec fn room_value(root: Seq<char>, v: Seq<char>) -> Seq<char> {
    if relative_value(v) {
        joined(root, v)
    } else {
        v
    }
}

/// What a room line is.
#[derive(Clone, Copy, PartialEq, Eq, Structural)]
pub enum RoomLineKind {
    Blank,
    Alias,
    Abbreviation,
    Setting,
}

pub open spec fn room_line_kind(line: Seq<char>) -> RoomLineKind {
    if line.len() == 0 {
        RoomLineKind::Blank
    } else if text_begins(line, "alias "@) {
        RoomLineKind::Alias
    } else if text_begins(line, "abbr "@) {
        RoomLineKind::Abbreviation
    } else {
        RoomLineKind::Setting
    }
}

pub open spec fn room_alias(line: Seq<char>, r: RoomModel) -> Result<RoomModel, ConfigFault> {
    match split_once(after(line, "alias "@.len()), '>') {
        None => Err(ConfigFault::AliasNeedsArrow),
        Some((name, value)) => match spec_alias_name(trim(name)) {
            Err(f) => Err(f),
            Ok(n) => match spec_quoted(trim(value)) {
                Err(f) => Err(f),
                Ok(v) => Ok(RoomModel { aliases: r.aliases.insert(split_whitespace(n), v), ..r }),
            },
        },
    }
}

pub open spec fn room_abbreviation(line: Seq<char>, r: RoomModel) -> Result<RoomModel, ConfigFault> {
    match split_once(after(line, "abbr "@.len()), '>') {
        None => Err(ConfigFault::AbbreviationNeedsArrow),
        Some((name, value)) => match spec_abbreviation_name(trim(name)) {
            Err(f) => Err(f),
            Ok(n) => match spec_quoted(trim(value)) {
                Err(f) => Err(f),
                Ok(v) => Ok(RoomModel { abbreviations: r.abbreviations.insert(n, v), ..r }),
            },
        },
    }
}

/// A `key = "value"` entry of a room, its value already unquoted.
pub open spec fn room_entry(key: Seq<char>, v: Seq<char>, root: Seq<char>, r: RoomModel) -> Result<
    RoomModel,
    ConfigFault,
> {
    if text_is(key, "name"@) {
        Ok(RoomModel { name: v, ..r })
    } else if text_is(key, "prompt.badge"@) {
        Ok(RoomModel { badge: Some(v), ..r })
    } else if text_is(key, "on_enter"@) {
        Ok(RoomModel { on_enter: Some(v), ..r })
    } else if text_is(key, "on_leave"@) {
        Ok(RoomModel { on_leave: Some(v), ..r })
    } else if text_begins(key, "environment."@) {
        let variable = after(key, "environment."@.len());
        if !room_variable_name(variable) {
            Err(ConfigFault::BadVariableName)
        } else {
            Ok(RoomModel { environment: r.environment.insert(variable, room_value(root, v)), ..r })
        }
    } else {
        Err(ConfigFault::UnknownRoomEntry)
    }
}

pub open spec fn room_setting(line: Seq<char>, root: Seq<char>, r: RoomModel) -> Result<
    RoomModel,
    ConfigFault,
> {
    match split_once(line, '=') {
        None => Err(ConfigFault::ExpectedEquals),
        Some((key, value)) => match spec_quoted(trim(value)) {
            Err(f) => Err(f),
            Ok(v) => room_entry(trim(key), v, root, r),
        },
    }
}

/// One line of a room file applied to `r`.
pub open spec fn room_line(raw: Seq<char>, root: Seq<char>, r: RoomModel) -> Result<
    RoomModel,
    ConfigFault,
> {
    let line = clean(raw);
    match room_line_kind(line) {
        RoomLineKind::Blank => Ok(r),
        RoomLineKind::Alias => room_alias(line, r),
        RoomLineKind::Abbreviation => room_abbreviation(line, r),
        RoomLineKind::Setting => room_setting(line, root, r),
    }
}

/// The room read from line index `i` on; an error carries its 1-based line.
pub open spec fn room_from(lines: Seq<Seq<char>>, i: int, root: Seq<char>, r: RoomModel) -> Result<
    RoomModel,
    (int, ConfigFault),
>
    decreases lines.len() - i,
{
    if i < 0 || i >= lines.len() {
        Ok(r)
    } else {
        match room_line(lines[i], root, r) {
            Err(f) => Err((i + 1, f)),
            Ok(next) => room_from(lines, i + 1, root, next),
        }
    }
}

/// The room that the text of the file at `path`, in the directory `root`, describes.
pub open spec fn spec_parse_room(source: Seq<char>, bytes: Seq<u8>, path: Seq<char>, root: Seq<char>) -> Result<
    RoomModel,
    (int, ConfigFault),
> {
    match room_from(lines_of(source), 0, root, empty_room(path, hex_digits(fnv1a(bytes) as nat, 16))) {
        Err(e) => Err(e),
        Ok(r) => if r.name.len() == 0 {
            Err((1, ConfigFault::RoomNeedsName))
        } else {
            Ok(r)
        },
    }
}

spec fn room_result(r: Result<Room, ConfigFault>) -> Result<RoomModel, ConfigFault> {
    match r {
        Ok(room) => Ok(room@),
        Err(f) => Err(f),
    }
}

fn room_variable(v: &[char]) -> (r: bool)
    ensures
        r == room_variable_name(v@),
{
    if v.len() == 0 {
        return false;
    }
    let mut i: usize = 0;
    while i < v.len()
        invariant
            i <= v@.len(),
            forall|j: int| 0 <= j < i ==> is_ascii_alnum(#[trigger] v@[j]) || v@[j] == '_',
        decreases v@.len() - i,
    {
        if !(crate::text::ascii_alnum(v[i]) || v[i] == '_') {
            return false;
        }
        i += 1;
    }
    true
}

pub(crate) fn join_path(root: &[char], value: &[char]) -> (r: Vec<char>)
    ensures
        r@ == joined(root@, value@),
{
    let mut r: Vec<char> = Vec::new();
    let mut i: usize = 0;
    while i < root.len()
        invariant
            i <= root@.len(),
            r@ == root@.take(i as int),
        decreases root@.len() - i,
    {
        r.push(root[i]);
        i += 1;
        assert(r@ =~= root@.take(i as int));
    }
    assert(root@.take(root@.len() as int) =~= root@);
    if root.len() > 0 && root[root.len() - 1] != '/' {
        r.push('/');
    }
    let ghost head = r@;
    let mut j: usize = 0;
    while j < value.len()
        invariant
            j <= value@.len(),
            r@ == head + value@.take(j as int),
        decreases value@.len() - j,
    {
        r.push(value[j]);
        j += 1;
        assert(r@ =~= head + value@.take(j as int));
    }
    assert(value@.take(value@.len() as int) =~= value@);
    proof {
        if root@.len() == 0 {
            assert(head =~= Seq::<char>::empty());
            assert(r@ =~= value@);
        } else if root@.last() != '/' {
            assert(head =~= root@ + "/"@) by {
                reveal_strlit("/");
            }
        }
    }
    r
}

fn apply_alias(line: &[char], r: Room) -> (res: Result<Room, ConfigFault>)
    requires
        text_begins(line@, "alias "@),
    ensures
        room_result(res) == room_alias(line@, r@),
{
    let rest = rest_after(line, "alias ");
    match crate::text::split_once_char(rest.as_slice(), '>') {
        None => Err(ConfigFault::AliasNeedsArrow),
        Some((name, value)) => {
            let name = crate::text::trimmed(name.as_slice());
            let name = match alias_name_chars(name.as_slice()) {
                Err(f) => {
                    return Err(f);
                },
                Ok(n) => n,
            };
            let value = crate::text::trimmed(value.as_slice());
            match quoted_value(value.as_slice()) {
                Err(f) => Err(f),
                Ok(v) => {
                    let mut r = r;
                    r.aliases.insert(alias_key(name.as_slice()), string_of(v.as_slice()));
                    Ok(r)
                },
            }
        },
    }
}

fn apply_abbreviation(line: &[char], r: Room) -> (res: Result<Room, ConfigFault>)
    requires
        text_begins(line@, "abbr "@),
    ensures
        room_result(res) == room_abbreviation(line@, r@),
{
    let rest = rest_after(line, "abbr ");
    match crate::text::split_once_char(rest.as_slice(), '>') {
        None => Err(ConfigFault::AbbreviationNeedsArrow),
        Some((name, value)) => {
            let name = crate::text::trimmed(name.as_slice());
            let name = match abbreviation_name_chars(name.as_slice()) {
                Err(f) => {
                    return Err(f);
                },
                Ok(n) => n,
            };
            let value = crate::text::trimmed(value.as_slice());
            match quoted_value(value.as_slice()) {
                Err(f) => Err(f),
                Ok(v) => {
                    let mut r = r;
                    r.abbreviations.insert(string_of(name.as_slice()), string_of(v.as_slice()));
                    Ok(r)
                },
            }
        },
    }
}

fn apply_entry(key: &[char], v: &[char], root: &[char], r: Room) -> (res: Result<Room, ConfigFault>)
    ensures
        room_result(res) == room_entry(key@, v@, root@, r@),
{
    let mut r = r;
    if is_text(key, "name") {
        r.name = string_of(v);
        Ok(r)
    } else if is_text(key, "prompt.badge") {
        r.badge = Some(string_of(v));
        Ok(r)
    } else if is_text(key, "on_enter") {
        r.on_enter = Some(string_of(v));
        Ok(r)
    } else if is_text(key, "on_leave") {
        r.on_leave = Some(string_of(v));
        Ok(r)
    } else if begins_text(key, "environment.") {
        let variable = rest_after(key, "environment.");
        if !room_variable(variable.as_slice()) {
            return Err(ConfigFault::BadVariableName);
        }
        let value = if begins_text(v, "./") || is_text(v, ".") {
            join_path(root, v)
        } else {
            crate::text::chars_between(v, 0, v.len())
        };
        assert(v@.subrange(0, v@.len() as int) =~= v@);
        r.environment.insert(string_of(variable.as_slice()), string_of(value.as_slice()));
        Ok(r)
    } else {
        Err(ConfigFault::UnknownRoomEntry)
    }
}

fn apply_setting(line: &[char], root: &[char], r: Room) -> (res: Result<Room, ConfigFault>)
    ensures
        room_result(res) == room_setting(line@, root@, r@),
{
    match crate::text::split_once_char(line, '=') {
        None => Err(ConfigFault::ExpectedEquals),
        Some((key, value)) => {
            let value = crate::text::trimmed(value.as_slice());
            match quoted_value(value.as_slice()) {
                Err(f) => Err(f),
                Ok(v) => {
                    let key = crate::text::trimmed(key.as_slice());
                    apply_entry(key.as_slice(), v.as_slice(), root, r)
                },
            }
        },
    }
}

fn apply_line(raw: &[char], root: &[char], r: Room) -> (res: Result<Room, ConfigFault>)
    ensures
        room_result(res) == room_line(raw@, root@, r@),
{
    let line = clean_line(raw);
    if line.len() == 0 {
        Ok(r)
    } else if begins_text(line.as_slice(), "alias ") {
        apply_alias(line.as_slice(), r)
    } else if begins_text(line.as_slice(), "abbr ") {
        apply_abbreviation(line.as_slice(), r)
    } else {
        apply_setting(line.as_slice(), root, r)
    }
}

/// Reads the text of the room file at `path`; `root` is the directory that
/// holds it, against which `./` values are joined.
pub fn parse(source: &str, path: &str, root: &str) -> (res: Result<Room, ConfigError>)
    ensures
        match spec_parse_room(source@, source.spec_bytes(), path@, root@) {
            Ok(m) => res is Ok && res->Ok_0@ == m,
            Err((line, f)) => res is Err && res->Err_0.path@ == path@ && res->Err_0.line == line
                && res->Err_0.column == 1 && res->Err_0.message@ == config_fault_message(f),
        },
{
    let chars = chars_of(source);
    let root_chars = chars_of(root);
    let lines = crate::text::lines(chars.as_slice());
    let ghost ls = char_views(lines@);
    let mut room = Room::default();
    room.path = String::from_str(path);
    room.hash = crate::state::hash(source.as_bytes());
    let ghost start = room@;
    assert(start == empty_room(path@, hex_digits(fnv1a(source.spec_bytes()) as nat, 16)));
    let mut i: usize = 0;
    while i < lines.len()
        invariant
            ls == char_views(lines@),
            ls == lines_of(source@),
            root_chars@ == root@,
            start == empty_room(path@, hex_digits(fnv1a(source.spec_bytes()) as nat, 16)),
            i <= lines@.len(),
            room_from(ls, i as int, root@, room@) == room_from(ls, 0, root@, start),
        decreases lines@.len() - i,
    {
        assert(ls[i as int] == lines@[i as int]@);
        let ghost before = room@;
        match apply_line(lines[i].as_slice(), root_chars.as_slice(), room) {
            Err(f) => {
                assert(room_from(ls, i as int, root@, before) == Err::<RoomModel, (int, ConfigFault)>((i + 1, f)));
                return Err(fault_error(path, i + 1, f));
            },
            Ok(next) => {
                room = next;
                i += 1;
            },
        }
    }
    if room.name.as_str().is_empty() {
        return Err(fault_error(path, 1, ConfigFault::RoomNeedsName));
    }
    Ok(room)
}

/// A lifecycle command with `[[NAME]]` replaced by the room's name.
pub fn lifecycle(command: &str, name: &str) -> (r: String)
    ensures
        r@ == replace_all(command@, "[[NAME]]"@, name@),
{
    let c = chars_of(command);
    let n = chars_of(name);
    let pattern = chars_of("[[NAME]]");
    string_of(crate::text::replace_chars(c.as_slice(), pattern.as_slice(), n.as_slice()).as_slice())
}


/// The record that marks a room as trusted: its canonical path, a tab, and
/// the hash of the contents that were trusted.
pub open spec fn record_text(canonical: Seq<char>, hash: Seq<char>) -> Seq<char> {
    canonical + "\t"@ + hash
}

/// A record that belongs to the room at `canonical`, whatever its hash.
pub open spec fn of_room(record: Seq<char>, canonical: Seq<char>) -> bool {
    starts_with(record, canonical + "\t"@)
}

/// The records that belong to other rooms, in their order.
pub open spec fn other_rooms(records: Seq<Seq<char>>, canonical: Seq<char>) -> Seq<Seq<char>>
    decreases records.len(),
{
    if records.len() == 0 {
        Seq::empty()
    } else {
        let rest = other_rooms(records.drop_last(), canonical);
        if of_room(records.last(), canonical) {
            rest
        } else {
            rest.push(records.last())
        }
    }
}

pub fn trust_record(canonical: &str, hash: &str) -> (r: String)
    ensures
        r@ == record_text(canonical@, hash@),
{
    let mut r = String::from_str(canonical);
    r.append("\t");
    r.append(hash);
    proof {
        reveal_strlit("\t");
    }
    r
}

/// Whether the room, found at `canonical`, is trusted with its present contents.
pub fn is_trusted(records: &Vec<String>, canonical: &str, room: &Room) -> (r: bool)
    ensures
        r == string_views(records@).contains(record_text(canonical@, room.hash@)),
{
    let record = trust_record(canonical, room.hash.as_str());
    let target = chars_of(record.as_str());
    let ghost rs = string_views(records@);
    let mut i: usize = 0;
    while i < records.len()
        invariant
            i <= records@.len(),
            rs == string_views(records@),
            target@ == record_text(canonical@, room.hash@),
            forall|j: int| 0 <= j < i ==> #[trigger] rs[j] != target@,
        decreases records@.len() - i,
    {
        let candidate = chars_of(records[i].as_str());
        if crate::text::same(candidate.as_slice(), target.as_slice()) {
            assert(rs[i as int] == target@);
            return true;
        }
        i += 1;
    }
    false
}

/// The records without those of the room at `canonical`.
pub fn records_without_trust(records: Vec<String>, canonical: &str) -> (r: Vec<String>)
    ensures
        string_views(r@) == other_rooms(string_views(records@), canonical@),
{
    let mut prefix = String::from_str(canonical);
    prefix.append("\t");
    proof {
        reveal_strlit("\t");
    }
    let p = chars_of(prefix.as_str());
    let ghost rs = string_views(records@);
    let mut r: Vec<String> = Vec::new();
    let mut i: usize = 0;
    while i < records.len()
        invariant
            i <= records@.len(),
            rs == string_views(records@),
            p@ == canonical@ + "\t"@,
            string_views(r@) == other_rooms(rs.take(i as int), canonical@),
        decreases records@.len() - i,
    {
        let record = chars_of(records[i].as_str());
        assert(rs.take(i + 1).drop_last() =~= rs.take(i as int));
        assert(rs.take(i + 1).last() == record@);
        if !crate::text::has_prefix(record.as_slice(), p.as_slice()) {
            let ghost before = r@;
            r.push(records[i].clone());
            assert(string_views(r@) =~= string_views(before).push(record@));
        }
        i += 1;
    }
    assert(rs.take(records@.len() as int) =~= rs);
    r
}

/// The records with the room at `canonical` trusted as it is at `hash`, and
/// no other record of that room.
pub fn records_with_trust(records: Vec<String>, canonical: &str, hash: &str) -> (r: Vec<String>)
    ensures
        string_views(r@) == other_rooms(string_views(records@), canonical@).push(
            record_text(canonical@, hash@),
        ),
{
    let mut r = records_without_trust(records, canonical);
    let ghost before = r@;
    r.push(trust_record(canonical, hash));
    assert(string_views(r@) =~= string_views(before).push(record_text(canonical@, hash@)));
    r
}


proof fn lemma_other_rooms_members(records: Seq<Seq<char>>, canonical: Seq<char>, x: Seq<char>)
    ensures
        other_rooms(records, canonical).contains(x) <==> (records.contains(x) && !of_room(
            x,
            canonical,
        )),
    decreases records.len(),
{
    if records.len() > 0 {
        let init = records.drop_last();
        let last = records.last();
        lemma_other_rooms_members(init, canonical, x);
        let rest = other_rooms(init, canonical);
        let kept = other_rooms(records, canonical);
        if kept.contains(x) {
            let i = choose|i: int| 0 <= i < kept.len() && kept[i] == x;
            if i < rest.len() {
                assert(rest[i] == x);
                let k = choose|k: int| 0 <= k < init.len() && init[k] == x;
                assert(records[k] == x);
            } else {
                assert(!of_room(last, canonical));
                assert(x == last);
                assert(records[records.len() - 1] == x);
            }
        }
        if records.contains(x) && !of_room(x, canonical) {
            let i = choose|i: int| 0 <= i < records.len() && records[i] == x;
            if i < records.len() - 1 {
                assert(init[i] == x);
                let k = choose|k: int| 0 <= k < rest.len() && rest[k] == x;
                if of_room(last, canonical) {
                    assert(kept[k] == x);
                } else {
                    assert(rest.push(last)[k] == x);
                }
            } else {
                assert(x == last);
                assert(rest.push(last)[rest.len() as int] == x);
            }
        }
    }
}

proof fn lemma_other_rooms_twice(records: Seq<Seq<char>>, canonical: Seq<char>)
    ensures
        other_rooms(other_rooms(records, canonical), canonical) == other_rooms(records, canonical),
    decreases records.len(),
{
    if records.len() > 0 {
        let init = records.drop_last();
        lemma_other_rooms_twice(init, canonical);
        let rest = other_rooms(init, canonical);
        if !of_room(records.last(), canonical) {
            assert(rest.push(records.last()).drop_last() =~= rest);
        }
    }
}

/// Once a room is trusted, its record is among the records.
pub proof fn lemma_trusted_after_trust(records: Seq<Seq<char>>, canonical: Seq<char>, hash: Seq<char>)
    ensures
        other_rooms(records, canonical).push(record_text(canonical, hash)).contains(
            record_text(canonical, hash),
        ),
{
    let r = other_rooms(records, canonical).push(record_text(canonical, hash));
    assert(r[r.len() - 1] == record_text(canonical, hash));
}

/// Once a room is no longer trusted, no contents of it are trusted.
pub proof fn lemma_untrusted_after_untrust(records: Seq<Seq<char>>, canonical: Seq<char>, hash: Seq<char>)
    ensures
        !other_rooms(records, canonical).contains(record_text(canonical, hash)),
{
    lemma_other_rooms_members(records, canonical, record_text(canonical, hash));
    assert(record_text(canonical, hash).subrange(0, (canonical + "\t"@).len() as int) =~= canonical
        + "\t"@);
}

/// Trusting or no longer trusting one room leaves the trust of every record
/// that is not that room's as it was.
pub proof fn lemma_trust_keeps_other_rooms(
    records: Seq<Seq<char>>,
    canonical: Seq<char>,
    hash: Seq<char>,
    other: Seq<char>,
)
    requires
        !of_room(other, canonical),
    ensures
        other_rooms(records, canonical).contains(other) == records.contains(other),
        other_rooms(records, canonical).push(record_text(canonical, hash)).contains(other)
            == records.contains(other),
{
    lemma_other_rooms_members(records, canonical, other);
    let kept = other_rooms(records, canonical);
    assert(record_text(canonical, hash).subrange(0, (canonical + "\t"@).len() as int) =~= canonical
        + "\t"@);
    if kept.push(record_text(canonical, hash)).contains(other) {
        let i = choose|i: int| 0 <= i < kept.len() + 1 && kept.push(record_text(canonical, hash))[i]
            == other;
        if i < kept.len() {
            assert(kept[i] == other);
        }
    }
    if kept.contains(other) {
        let i = choose|i: int| 0 <= i < kept.len() && kept[i] == other;
        assert(kept.push(record_text(canonical, hash))[i] == other);
    }
}

/// Trust is for the contents that were trusted: once a room is trusted at
/// one hash, contents with any other hash are not trusted.
pub proof fn lemma_trust_is_for_contents(
    records: Seq<Seq<char>>,
    canonical: Seq<char>,
    hash: Seq<char>,
    other_hash: Seq<char>,
)
    ensures
        other_rooms(records, canonical).push(record_text(canonical, hash)).contains(
            record_text(canonical, other_hash),
        ) <==> other_hash == hash,
{
    let kept = other_rooms(records, canonical);
    let wanted = record_text(canonical, other_hash);
    lemma_untrusted_after_untrust(records, canonical, other_hash);
    lemma_trusted_after_trust(records, canonical, hash);
    if kept.push(record_text(canonical, hash)).contains(wanted) {
        let i = choose|i: int| 0 <= i < kept.len() + 1 && kept.push(record_text(canonical, hash))[i]
            == wanted;
        if i < kept.len() {
            assert(kept[i] == wanted);
        } else {
            let head = (canonical + "\t"@).len() as int;
            assert(wanted.subrange(head, wanted.len() as int) =~= other_hash);
            assert(record_text(canonical, hash).subrange(head, wanted.len() as int) =~= hash);
        }
    }
}

/// Trusting a room twice leaves the same records as trusting it once.
pub proof fn lemma_trust_twice(records: Seq<Seq<char>>, canonical: Seq<char>, hash: Seq<char>)
    ensures
        ({
            let once = other_rooms(records, canonical).push(record_text(canonical, hash));
            other_rooms(once, canonical).push(record_text(canonical, hash)) == once
        }),
{
    let kept = other_rooms(records, canonical);
    let once = kept.push(record_text(canonical, hash));
    assert(record_text(canonical, hash).subrange(0, (canonical + "\t"@).len() as int) =~= canonical
        + "\t"@);
    assert(once.drop_last() =~= kept);
    lemma_other_rooms_twice(records, canonical);
}


/// The length of `p` without its trailing slashes, a leading one kept.
pub open spec fn without_trailing_slashes(p: Seq<char>, n: int) -> int
    decreases n,
{
    if n > 1 && p[n - 1] == '/' {
        without_trailing_slashes(p, n - 1)
    } else {
        n
    }
}

/// The index of the last `/` before `n`, or -1.
pub open spec fn last_slash(p: Seq<char>, n: int) -> int
    decreases n,
{
    if n <= 0 {
        -1
    } else if p[n - 1] == '/' {
        n - 1
    } else {
        last_slash(p, n - 1)
    }
}

/// The length of the prefix of `p` that is its parent directory, as
/// `Path::parent` gives it for paths without `.` or `..` components; none
/// for the root and for the empty path.
pub open spec fn parent_length(p: Seq<char>) -> Option<int> {
    let t = without_trailing_slashes(p, p.len() as int);
    if t == 0 || (t == 1 && p[0] == '/') {
        None
    } else {
        let s = last_slash(p, t);
        if s < 0 {
            Some(0)
        } else if s == 0 {
            Some(1)
        } else {
            Some(without_trailing_slashes(p, s))
        }
    }
}

/// `p` and each directory above it, nearest first.
pub open spec fn ancestors(p: Seq<char>) -> Seq<Seq<char>>
    decreases p.len(),
{
    match parent_length(p) {
        Some(k) => if 0 <= k < p.len() {
            seq![p] + ancestors(p.take(k))
        } else {
            seq![p]
        },
        None => seq![p],
    }
}

/// The room file that each directory of `ds` would hold.
pub open spec fn room_files(ds: Seq<Seq<char>>) -> Seq<Seq<char>> {
    Seq::new(ds.len(), |i: int| joined(ds[i], ".nsh-room"@))
}

pub(crate) proof fn lemma_without_trailing_slashes(p: Seq<char>, n: int)
    requires
        0 <= n <= p.len(),
    ensures
        0 <= without_trailing_slashes(p, n) <= n,
        n > 0 ==> without_trailing_slashes(p, n) > 0,
    decreases n,
{
    if n > 1 && p[n - 1] == '/' {
        lemma_without_trailing_slashes(p, n - 1);
    }
}

pub(crate) proof fn lemma_last_slash(p: Seq<char>, n: int)
    requires
        0 <= n <= p.len(),
    ensures
        -1 <= last_slash(p, n) < n,
        last_slash(p, n) >= 0 ==> p[last_slash(p, n)] == '/',
    decreases n,
{
    if n > 0 && p[n - 1] != '/' {
        lemma_last_slash(p, n - 1);
    }
}

pub(crate) fn trailing_slashes_cut(p: &[char], n: usize) -> (r: usize)
    requires
        n <= p@.len(),
    ensures
        r == without_trailing_slashes(p@, n as int),
{
    let mut m = n;
    while m > 1 && p[m - 1] == '/'
        invariant
            m <= n <= p@.len(),
            without_trailing_slashes(p@, m as int) == without_trailing_slashes(p@, n as int),
        decreases m,
    {
        m -= 1;
    }
    m
}

pub(crate) fn slash_before(p: &[char], n: usize) -> (r: Option<usize>)
    requires
        n <= p@.len(),
    ensures
        match r {
            Some(i) => i == last_slash(p@, n as int),
            None => last_slash(p@, n as int) == -1,
        },
{
    let mut m = n;
    while m > 0 && p[m - 1] != '/'
        invariant
            m <= n <= p@.len(),
            last_slash(p@, m as int) == last_slash(p@, n as int),
        decreases m,
    {
        m -= 1;
    }
    if m == 0 {
        None
    } else {
        Some(m - 1)
    }
}

pub(crate) fn parent_cut(p: &[char]) -> (r: Option<usize>)
    ensures
        match parent_length(p@) {
            Some(k) => r == Some(k as usize) && 0 <= k < p@.len(),
            None => r is None,
        },
{
    let t = trailing_slashes_cut(p, p.len());
    proof {
        lemma_without_trailing_slashes(p@, p@.len() as int);
    }
    if t == 0 || (t == 1 && p[0] == '/') {
        return None;
    }
    proof {
        lemma_last_slash(p@, t as int);
    }
    match slash_before(p, t) {
        None => Some(0),
        Some(s) => if s == 0 {
            Some(1)
        } else {
            proof {
                lemma_without_trailing_slashes(p@, s as int);
            }
            Some(trailing_slashes_cut(p, s))
        },
    }
}

/// The paths of the room files that could apply in the directory `start`,
/// nearest first.
pub fn room_paths(start: &str) -> (r: Vec<String>)
    ensures
        string_views(r@) == room_files(ancestors(start@)),
{
    let mut current = chars_of(start);
    let name = chars_of(".nsh-room");
    let mut r: Vec<String> = Vec::new();
    let ghost all = ancestors(start@);
    loop
        invariant
            name@ == ".nsh-room"@,
            all == ancestors(start@),
            room_files(all) == string_views(r@) + room_files(ancestors(current@)),
        decreases current@.len(),
    {
        let ghost here = current@;
        let ghost before = r@;
        let file = join_path(current.as_slice(), name.as_slice());
        r.push(string_of(file.as_slice()));
        assert(string_views(r@) =~= string_views(before).push(joined(here, ".nsh-room"@)));
        match parent_cut(current.as_slice()) {
            None => {
                assert(ancestors(here) == seq![here]);
                assert(room_files(seq![here]) =~= seq![joined(here, ".nsh-room"@)]);
                assert(room_files(all) =~= string_views(r@));
                return r;
            },
            Some(k) => {
                let next = crate::text::chars_between(current.as_slice(), 0, k);
                assert(next@ =~= here.take(k as int));
                assert(ancestors(here) == seq![here] + ancestors(next@));
                assert(room_files(ancestors(here)) =~= seq![joined(here, ".nsh-room"@)] + room_files(
                    ancestors(next@),
                ));
                assert(room_files(all) =~= string_views(r@) + room_files(ancestors(next@)));
                current = next;
            },
        }
    }
}

/// The room file that applies in the directory `start`, of those that
/// exist: the one nearest to it.
pub fn discover(start: &str, existing: &Vec<String>) -> (r: Option<String>)
    ensures
        ({
            let files = room_files(ancestors(start@));
            let found = string_views(existing@);
            match r {
                Some(p) => exists|i: int|
                    0 <= i < files.len() && files[i] == p@ && found.contains(files[i]) && forall|j: int|
                        0 <= j < i ==> !found.contains(#[trigger] files[j]),
                None => forall|i: int| 0 <= i < files.len() ==> !found.contains(#[trigger] files[i]),
            }
        }),
{
    let candidates = room_paths(start);
    let ghost files = room_files(ancestors(start@));
    let ghost found = string_views(existing@);
    let mut i: usize = 0;
    while i < candidates.len()
        invariant
            i <= candidates@.len(),
            files == string_views(candidates@),
            files == room_files(ancestors(start@)),
            found == string_views(existing@),
            forall|j: int| 0 <= j < i ==> !found.contains(#[trigger] files[j]),
        decreases candidates@.len() - i,
    {
        let c = chars_of(candidates[i].as_str());
        let mut k: usize = 0;
        let mut hit = false;
        while k < existing.len()
            invariant
                k <= existing@.len(),
                found == string_views(existing@),
                c@ == files[i as int],
                hit == exists|q: int| 0 <= q < k && found[q] == c@,
            decreases existing@.len() - k,
        {
            let e = chars_of(existing[k].as_str());
            if crate::text::same(e.as_slice(), c.as_slice()) {
                hit = true;
                assert(found[k as int] == c@);
            }
            k += 1;
        }
        if hit {
            let p = string_of(c.as_slice());
            assert(found.contains(files[i as int]));
            assert(files[i as int] == p@);
            assert(0 <= i < files.len() && files[i as int] == p@ && found.contains(files[i as int])
                && forall|j: int| 0 <= j < i ==> !found.contains(#[trigger] files[j]));
            return Some(p);
        }
        assert(!found.contains(files[i as int]));
        i += 1;
    }
    None
}


/// Whether the shell keeps its room as it is after looking around again.
/// `active` and `declined` are the room in force and the one the user last
/// declined to trust; `found` is the nearest room file, and `loaded` what
/// reading it gave, when it read. A room file that fails to read keeps the
/// room it was; an unchanged room, or an unchanged declined one, stays.
pub open spec fn spec_room_stays(
    active: Option<(Seq<char>, Seq<char>)>,
    declined: Option<(Seq<char>, Seq<char>)>,
    found: Option<Seq<char>>,
    loaded: Option<(Seq<char>, Seq<char>)>,
) -> bool {
    let failed_same = loaded is None && match (active, found) {
        (Some((path, _)), Some(f)) => path == f,
        _ => false,
    };
    let unchanged = active == loaded;
    let declined_again = loaded is Some && declined == loaded;
    failed_same || unchanged || declined_again
}

pub open spec fn file_view(f: &Option<(String, String)>) -> Option<(Seq<char>, Seq<char>)> {
    match f {
        Some((p, h)) => Some((p@, h@)),
        None => None,
    }
}

fn same_text(a: &String, b: &String) -> (r: bool)
    ensures
        r == (a@ == b@),
{
    let x = chars_of(a.as_str());
    let y = chars_of(b.as_str());
    crate::text::same(x.as_slice(), y.as_slice())
}

fn same_room_file(a: &Option<(String, String)>, b: &Option<(String, String)>) -> (r: bool)
    ensures
        r == (file_view(a) == file_view(b)),
{
    match (a, b) {
        (None, None) => true,
        (Some((p, h)), Some((q, g))) => same_text(p, q) && same_text(h, g),
        _ => false,
    }
}

pub fn room_stays(
    active: &Option<(String, String)>,
    declined: &Option<(String, String)>,
    found: &Option<String>,
    loaded: &Option<(String, String)>,
) -> (r: bool)
    ensures
        r == spec_room_stays(
            file_view(active),
            file_view(declined),
            crate::shell::text_option(*found),
            file_view(loaded),
        ),
{
    let failed_same = match (loaded, found, active) {
        (None, Some(f), Some((p, _))) => same_text(p, f),
        _ => false,
    };
    let unchanged = same_room_file(active, loaded);
    let declined_again = loaded.is_some() && same_room_file(declined, loaded);
    failed_same || unchanged || declined_again
}

} // verus!
