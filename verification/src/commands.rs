//! The command interpreter: parsing `ls` listings and `cd`/`ls` commands,
//! the working path maintained while replaying a shell session, and the
//! builder that folds a command stream into a directory tree.

use vstd::prelude::*;
use crate::directory::Directory;
use crate::directory::is_insert_of;
use crate::directory::lemma_append_entry;
use crate::directory::lemma_replace_entry;
use crate::directory::sp_has;
use crate::directory::sp_unique;
use crate::text::all_decimal_digits;
use crate::text::decimal_value;
use crate::text::is_decimal_digit;
use crate::text::parse_decimal;

verus! {

/// Horizontal whitespace that separates fields of a listing line.
pub open spec fn is_space(c: char) -> bool {
    c == ' ' || c == '\t'
}

/// `k` is the position of the first space of `line`.
pub open spec fn line_split(line: Seq<char>, k: int) -> bool {
    &&& 0 <= k < line.len()
    &&& is_space(line[k])
    &&& forall|j: int| 0 <= j < k ==> !is_space(#[trigger] line[j])
}

/// `e` is the extent of the line's first token: the position of the first
/// space, or the line's length when it has no space.
pub open spec fn token_extent(line: Seq<char>, e: int) -> bool {
    &&& 0 <= e <= line.len()
    &&& (e == line.len() || is_space(line[e]))
    &&& forall|j: int| 0 <= j < e ==> !is_space(#[trigger] line[j])
}

/// The line's first token is a nonempty run of decimal digits.
pub open spec fn digit_led_line(line: Seq<char>) -> bool {
    exists|e: int|
        #[trigger] token_extent(line, e) && e > 0 && all_decimal_digits(line.subrange(0, e))
}

/// A file entry: a nonempty run of digits whose value fits in `u64`, a
/// space, and a name (possibly empty).
pub open spec fn valid_file_line(line: Seq<char>) -> bool {
    exists|k: int|
        #[trigger] line_split(line, k) && k > 0 && all_decimal_digits(line.subrange(0, k))
            && decimal_value(line.subrange(0, k)) <= u64::MAX
}

/// A nonempty line whose first token is not a run of digits (`dir <name>`
/// and the like): read and ignored.
pub open spec fn placeholder_line(line: Seq<char>) -> bool {
    line.len() > 0 && !digit_led_line(line)
}

/// Every listing line is either a file entry or an ignored placeholder.
pub open spec fn valid_listing_line(line: Seq<char>) -> bool {
    placeholder_line(line) || valid_file_line(line)
}

/// The name of the file a file line declares: everything past the first
/// space.
pub open spec fn line_file_name(line: Seq<char>) -> Seq<char> {
    let k = choose|k: int| #[trigger] line_split(line, k);
    line.subrange(k + 1, line.len() as int)
}

/// The size the file line declares.
pub open spec fn line_file_size(line: Seq<char>) -> int {
    let k = choose|k: int| #[trigger] line_split(line, k);
    decimal_value(line.subrange(0, k))
}

/// The split of a line at its first space is unique.
pub proof fn lemma_line_split_unique(line: Seq<char>, k1: int, k2: int)
    requires
        line_split(line, k1),
        line_split(line, k2),
    ensures
        k1 == k2,
{
    if k1 < k2 {
        assert(!is_space(line[k1]));
    } else if k2 < k1 {
        assert(!is_space(line[k2]));
    }
}

/// The extent of the first token is unique.
pub proof fn lemma_token_extent_unique(line: Seq<char>, e1: int, e2: int)
    requires
        token_extent(line, e1),
        token_extent(line, e2),
    ensures
        e1 == e2,
{
    if e1 < e2 {
        assert(!is_space(line[e1]));
    } else if e2 < e1 {
        assert(!is_space(line[e2]));
    }
}

/// A file line is digit-led, so it is never a placeholder.
pub proof fn lemma_file_not_placeholder(line: Seq<char>)
    ensures
        valid_file_line(line) ==> !placeholder_line(line),
{
    if valid_file_line(line) {
        let k = choose|k: int|
            #[trigger] line_split(line, k) && k > 0 && all_decimal_digits(line.subrange(0, k))
                && decimal_value(line.subrange(0, k)) <= u64::MAX;
        assert(token_extent(line, k));
        assert(digit_led_line(line));
    }
}

/// Finds the first space or tab of `s`, if any.
fn find_space(s: &str) -> (r: Option<usize>)
    ensures
        match r {
            Some(k) => {
                &&& k < s@.len()
                &&& is_space(s@[k as int])
                &&& forall|j: int| 0 <= j < k ==> !is_space(#[trigger] s@[j])
            },
            None => forall|j: int| 0 <= j < s@.len() ==> !is_space(#[trigger] s@[j]),
        },
{
    let len = s.unicode_len();
    let mut i: usize = 0;
    while i < len
        invariant
            0 <= i <= len == s@.len(),
            forall|j: int| 0 <= j < i ==> !is_space(#[trigger] s@[j]),
        decreases len - i,
    {
        let c = s.get_char(i);
        if c == ' ' || c == '\t' {
            return Some(i);
        }
        i = i + 1;
    }
    None
}

/// Finds the first non-digit among the characters of `s` between `from`
/// and `to`, if any.
fn find_non_digit(s: &str, from: usize, to: usize) -> (r: Option<usize>)
    requires
        from <= to <= s@.len(),
    ensures
        match r {
            Some(j) => {
                &&& from <= j < to
                &&& !is_decimal_digit(s@[j as int])
                &&& forall|i: int| from <= i < j ==> is_decimal_digit(#[trigger] s@[i])
            },
            None => forall|i: int| from <= i < to ==> is_decimal_digit(#[trigger] s@[i]),
        },
{
    let mut i: usize = from;
    while i < to
        invariant
            from <= i <= to <= s@.len(),
            forall|j: int| from <= j < i ==> is_decimal_digit(#[trigger] s@[j]),
        decreases to - i,
    {
        let c = s.get_char(i);
        if !('0' <= c && c <= '9') {
            return Some(i);
        }
        i = i + 1;
    }
    None
}

/// What one listing line contributes.
pub enum ListingLine {
    /// The line fits neither form — it is empty, its digit run has no name
    /// after it, or the size does not fit in `u64`: the listing is rejected.
    Malformed,
    /// The first token is not a run of digits (`dir <name>` and the like):
    /// read and ignored.
    Placeholder,
    /// `<size> <name>`: a file of that size.
    FileEntry(String, u64),
}

/// Reads one line of an `ls` listing.
pub fn parse_listing_line(line: &str) -> (r: ListingLine)
    ensures
        r is Malformed <==> !valid_listing_line(line@),
        r is Placeholder <==> placeholder_line(line@),
        r matches ListingLine::FileEntry(name, size) ==> valid_file_line(line@) && name@
            == line_file_name(line@) && size == line_file_size(line@),
        valid_file_line(line@) ==> r is FileEntry,
{
    let len = line.unicode_len();
    if len == 0 {
        return ListingLine::Malformed;
    }
    let e = match find_space(line) {
        Some(k) => k,
        None => len,
    };
    proof {
        assert(token_extent(line@, e as int));
    }
    if e == 0 {
        proof {
            assert(!digit_led_line(line@)) by {
                if digit_led_line(line@) {
                    let e2 = choose|e2: int|
                        #[trigger] token_extent(line@, e2) && e2 > 0 && all_decimal_digits(
                            line@.subrange(0, e2),
                        );
                    lemma_token_extent_unique(line@, e2, 0);
                }
            }
            lemma_file_not_placeholder(line@);
        }
        return ListingLine::Placeholder;
    }
    match find_non_digit(line, 0, e) {
        Some(_) => {
            proof {
                assert(!digit_led_line(line@)) by {
                    if digit_led_line(line@) {
                        let e2 = choose|e2: int|
                            #[trigger] token_extent(line@, e2) && e2 > 0 && all_decimal_digits(
                                line@.subrange(0, e2),
                            );
                        lemma_token_extent_unique(line@, e2, e as int);
                        let j = choose|j: int|
                            0 <= j < e && !is_decimal_digit(#[trigger] line@[j]);
                        assert(line@.subrange(0, e as int)[j] == line@[j]);
                    }
                }
                lemma_file_not_placeholder(line@);
            }
            ListingLine::Placeholder
        },
        None => {
            proof {
                assert(all_decimal_digits(line@.subrange(0, e as int))) by {
                    assert forall|i: int|
                        0 <= i < e implies is_decimal_digit(
                        #[trigger] line@.subrange(0, e as int)[i],
                    ) by {
                        assert(line@.subrange(0, e as int)[i] == line@[i]);
                    }
                }
                assert(digit_led_line(line@));
            }
            if e == len {
                proof {
                    assert(!valid_file_line(line@)) by {
                        if valid_file_line(line@) {
                            let k = choose|k: int|
                                #[trigger] line_split(line@, k) && k > 0 && all_decimal_digits(
                                    line@.subrange(0, k),
                                ) && decimal_value(line@.subrange(0, k)) <= u64::MAX;
                            assert(token_extent(line@, k));
                            lemma_token_extent_unique(line@, k, e as int);
                        }
                    }
                }
                return ListingLine::Malformed;
            }
            proof {
                assert(line_split(line@, e as int));
            }
            match parse_decimal(line, 0, e) {
                None => {
                    proof {
                        assert(!valid_file_line(line@)) by {
                            if valid_file_line(line@) {
                                let k = choose|k: int|
                                    #[trigger] line_split(line@, k) && k > 0 && all_decimal_digits(
                                        line@.subrange(0, k),
                                    ) && decimal_value(line@.subrange(0, k)) <= u64::MAX;
                                lemma_line_split_unique(line@, k, e as int);
                            }
                        }
                    }
                    ListingLine::Malformed
                },
                Some(v) => {
                    let name = String::from_str(line.substring_char(e + 1, len));
                    proof {
                        assert(valid_file_line(line@));
                        let kc = choose|kk: int| #[trigger] line_split(line@, kk);
                        lemma_line_split_unique(line@, kc, e as int);
                    }
                    ListingLine::FileEntry(name, v)
                },
            }
        },
    }
}

/// Some line among the first `upto` is a file line named `n`.
pub open spec fn listing_has_name(lines: Seq<Seq<char>>, upto: int, n: Seq<char>) -> bool {
    exists|i: int|
        0 <= i < upto && valid_file_line(#[trigger] lines[i]) && line_file_name(lines[i]) == n
}

/// Line `i` is a file line and no later line (before `upto`) bears the same
/// name: its size is the one that endures.
pub open spec fn listing_last_for_name(lines: Seq<Seq<char>>, upto: int, i: int) -> bool {
    &&& 0 <= i < upto
    &&& valid_file_line(lines[i])
    &&& forall|j: int|
        i < j < upto && valid_file_line(#[trigger] lines[j]) ==> line_file_name(lines[j])
            != line_file_name(lines[i])
}

/// `d` is exactly the directory one `ls` listing describes: no
/// subdirectories, and one file per name declared, with the last declared
/// size.
pub open spec fn is_parsed_listing(d: Directory, lines: Seq<Seq<char>>) -> bool {
    &&& d.wf()
    &&& d.subdirectories@.len() == 0
    &&& forall|n: Seq<char>| #[trigger] d.has_file(n) <==> listing_has_name(lines, lines.len() as int, n)
    &&& forall|i: int|
        #[trigger] listing_last_for_name(lines, lines.len() as int, i) ==> d.file_size(
            line_file_name(lines[i]),
        ) == line_file_size(lines[i])
}

impl Directory {
    /// Parses the lines of one `ls` listing into an unattached directory
    /// fragment. A line whose first token is a nonempty run of digits is a
    /// file entry (later duplicates overwrite earlier ones); any other
    /// nonempty line is a placeholder and is ignored. Only an empty line, a
    /// digit run with no name after it, or an oversized value rejects the
    /// whole listing.
    #[verifier::loop_isolation(false)]
    pub fn parse(lines: &[String]) -> (r: Option<Directory>)
        ensures
            r is Some <==> (forall|i: int|
                0 <= i < lines.deep_view().len() ==> valid_listing_line(
                    #[trigger] lines.deep_view()[i],
                )),
            r matches Some(d) ==> is_parsed_listing(d, lines.deep_view()),
    {
        let ghost lv = lines.deep_view();
        let mut d = Directory::new();
        let n = lines.len();
        let mut i: usize = 0;
        while i < n
            invariant
                0 <= i <= n == lv.len(),
                lv == lines.deep_view(),
                d.subdirectories@.len() == 0,
                sp_unique(d.files@),
                forall|j: int| 0 <= j < i ==> valid_listing_line(#[trigger] lv[j]),
                forall|n2: Seq<char>|
                    #[trigger] d.has_file(n2) <==> listing_has_name(lv, i as int, n2),
                forall|j: int|
                    #[trigger] listing_last_for_name(lv, i as int, j) ==> d.file_size(
                        line_file_name(lv[j]),
                    ) == line_file_size(lv[j]),
            decreases n - i,
        {
            let line = vstd::slice::slice_index_get(lines, i);
            let ghost d_pre = d;
            proof {
                assert(lv[i as int] == line@);
            }
            match parse_listing_line(line.as_str()) {
                ListingLine::Malformed => {
                    return None;
                },
                ListingLine::Placeholder => {
                    proof {
                        lemma_file_not_placeholder(lv[i as int]);
                        assert forall|n2: Seq<char>| #[trigger]
                            d.has_file(n2) <==> listing_has_name(lv, i + 1, n2) by {
                            if listing_has_name(lv, i + 1, n2) {
                                let w = choose|w: int|
                                    0 <= w < i + 1 && valid_file_line(#[trigger] lv[w])
                                        && line_file_name(lv[w]) == n2;
                                assert(w < i);
                                assert(listing_has_name(lv, i as int, n2));
                            }
                        }
                        assert forall|j: int| #[trigger]
                            listing_last_for_name(lv, i + 1, j) implies d.file_size(
                            line_file_name(lv[j]),
                        ) == line_file_size(lv[j]) by {
                            assert(j < i);
                            assert(listing_last_for_name(lv, i as int, j));
                        }
                    }
                },
                ListingLine::FileEntry(name, size) => {
                    let ghost v1 = d.files@;
                    let ghost nm = name@;
                    let pos = crate::directory::position_of(&d.files, &name);
                    match pos {
                        Some(p) => {
                            proof {
                                lemma_replace_entry(v1, p as int, (name, size));
                            }
                            let _ = d.files.remove(p);
                            d.files.push((name, size));
                        },
                        None => {
                            proof {
                                lemma_append_entry(v1, (name, size));
                            }
                            d.files.push((name, size));
                        },
                    }
                    proof {
                        assert(valid_file_line(lv[i as int]) && line_file_name(lv[i as int])
                            == nm);
                        assert(d.file_size(nm) == size);
                        assert forall|n2: Seq<char>| #[trigger]
                            d.has_file(n2) <==> listing_has_name(lv, i + 1, n2) by {
                            if d.has_file(n2) {
                                if n2 == nm {
                                    assert(listing_has_name(lv, i + 1, n2));
                                } else {
                                    assert(sp_has(v1, n2));
                                    assert(d_pre.has_file(n2));
                                    assert(listing_has_name(lv, i as int, n2));
                                    let w = choose|w: int|
                                        0 <= w < i && valid_file_line(#[trigger] lv[w])
                                            && line_file_name(lv[w]) == n2;
                                    assert(listing_has_name(lv, i + 1, n2));
                                }
                            }
                            if listing_has_name(lv, i + 1, n2) && n2 != nm {
                                let w = choose|w: int|
                                    0 <= w < i + 1 && valid_file_line(#[trigger] lv[w])
                                        && line_file_name(lv[w]) == n2;
                                assert(w < i);
                                assert(listing_has_name(lv, i as int, n2));
                                assert(d_pre.has_file(n2));
                                assert(sp_has(v1, n2));
                            }
                        }
                        assert forall|j: int| #[trigger]
                            listing_last_for_name(lv, i + 1, j) implies d.file_size(
                            line_file_name(lv[j]),
                        ) == line_file_size(lv[j]) by {
                            if j == i {
                            } else {
                                assert(valid_file_line(lv[j]));
                                assert(line_file_name(lv[j]) != nm);
                                assert(listing_last_for_name(lv, i as int, j));
                                assert(d_pre.file_size(line_file_name(lv[j])) == line_file_size(
                                    lv[j],
                                ));
                                assert(d_pre.has_file(line_file_name(lv[j])));
                                assert(sp_has(v1, line_file_name(lv[j])));
                            }
                        }
                    }
                },
            }
            i = i + 1;
        }
        Some(d)
    }
}

/// One command of a replayed shell session.
pub enum Command {
    /// `cd <target>`: move the working path; no effect on the tree.
    ChangeDirectory(String),
    /// `ls` with its listing: insert the parsed fragment at the working path.
    ListDirectory(Directory),
}

/// The command text is `cd <target>` on a single line.
pub open spec fn is_cd_command(lv: Seq<Seq<char>>) -> bool {
    &&& lv.len() == 1
    &&& lv[0].len() >= 3
    &&& lv[0][0] == 'c'
    &&& lv[0][1] == 'd'
    &&& is_space(lv[0][2])
}

/// The target named by a `cd` command.
pub open spec fn cd_target_of(lv: Seq<Seq<char>>) -> Seq<char> {
    lv[0].subrange(3, lv[0].len() as int)
}

/// The command text is `ls` followed by its listing lines.
pub open spec fn is_ls_command(lv: Seq<Seq<char>>) -> bool {
    &&& lv.len() >= 1
    &&& lv[0].len() == 2
    &&& lv[0][0] == 'l'
    &&& lv[0][1] == 's'
}

/// Reads one command: its first line `cd <target>` or `ls`, and for `ls`
/// the listing lines that follow. Anything else is rejected.
pub fn parse_command(lines: &[String]) -> (r: Option<Command>)
    ensures
        ({
            let lv = lines.deep_view();
            match r {
                Some(Command::ChangeDirectory(t)) => is_cd_command(lv) && t@ == cd_target_of(lv),
                Some(Command::ListDirectory(d)) => is_ls_command(lv) && is_parsed_listing(
                    d,
                    lv.drop_first(),
                ),
                None => !is_cd_command(lv) && !(is_ls_command(lv) && (forall|i: int|
                    0 <= i < lv.drop_first().len() ==> valid_listing_line(
                        #[trigger] lv.drop_first()[i],
                    ))),
            }
        }),
{
    let ghost lv = lines.deep_view();
    if lines.len() == 0 {
        return None;
    }
    let first = vstd::slice::slice_index_get(lines, 0);
    proof {
        assert(lv[0] == first@);
    }
    let flen = first.as_str().unicode_len();
    let is_cd = flen >= 3 && lines.len() == 1 && first.as_str().get_char(0) == 'c'
        && first.as_str().get_char(1) == 'd' && {
        let c2 = first.as_str().get_char(2);
        c2 == ' ' || c2 == '\t'
    };
    if is_cd {
        let arg = String::from_str(first.as_str().substring_char(3, flen));
        return Some(Command::ChangeDirectory(arg));
    }
    let is_ls = flen == 2 && first.as_str().get_char(0) == 'l' && first.as_str().get_char(1)
        == 's';
    if is_ls {
        let rest = vstd::slice::slice_subrange(lines, 1, lines.len());
        proof {
            assert(rest.deep_view() =~= lv.drop_first());
        }
        match Directory::parse(rest) {
            Some(d) => Some(Command::ListDirectory(d)),
            None => None,
        }
    } else {
        None
    }
}

/// The working directory maintained while replaying a session: the sequence
/// of path segments below the root.
pub struct WorkingPath {
    pub segments: Vec<String>,
}

impl WorkingPath {
    /// The segments as character sequences.
    pub open spec fn view_segments(self) -> Seq<Seq<char>> {
        self.segments.deep_view()
    }

    /// The path starts at the root.
    pub fn new() -> (r: WorkingPath)
        ensures
            r.view_segments().len() == 0,
    {
        WorkingPath { segments: Vec::new() }
    }

    /// Applies one `cd` target: `/` resets to the root, `..` pops a segment
    /// (refused at the root), anything else descends into that name.
    pub fn change(&mut self, target: &str) -> (ok: bool)
        ensures
            target@ == "/"@ ==> ok && final(self).view_segments() =~= Seq::<Seq<char>>::empty(),
            target@ == ".."@ && old(self).view_segments().len() > 0 ==> ok && final(self).view_segments() =~= old(self).view_segments().drop_last(),
            target@ == ".."@ && old(self).view_segments().len() == 0 ==> !ok && *final(self) == *old(self),
            target@ != "/"@ && target@ != ".."@ ==> ok && final(self).view_segments() =~= old(self).view_segments().push(target@),
    {
        proof {
            reveal_strlit("/");
            reveal_strlit("..");
        }
        let len = target.unicode_len();
        if len == 1 && target.get_char(0) == '/' {
            proof {
                assert(target@ =~= "/"@);
            }
            self.segments.clear();
            return true;
        }
        if len == 2 && target.get_char(0) == '.' && target.get_char(1) == '.' {
            proof {
                assert(target@ =~= ".."@);
            }
            if self.segments.len() > 0 {
                let _ = self.segments.pop();
                proof {
                    assert(final(self).view_segments() =~= old(self).view_segments().drop_last());
                }
                return true;
            }
            return false;
        }
        proof {
            assert(target@ != "/"@ && target@ != ".."@) by {
                if target@ == "/"@ {
                    assert(target@.len() == 1 && target@[0] == '/');
                }
                if target@ == ".."@ {
                    assert(target@.len() == 2 && target@[0] == '.' && target@[1] == '.');
                }
            }
        }
        self.segments.push(String::from_str(target));
        proof {
            assert(final(self).view_segments() =~= old(self).view_segments().push(target@));
        }
        true
    }
}

/// The `cd` commands from position `i` on never pop past the root, given
/// that `depth` segments lie below the root already.
pub open spec fn valid_from(cmds: Seq<Command>, i: int, depth: int) -> bool
    decreases cmds.len() - i,
{
    if i < 0 || i >= cmds.len() {
        true
    } else {
        match cmds[i] {
            Command::ChangeDirectory(t) => if t@ == "/"@ {
                valid_from(cmds, i + 1, 0)
            } else if t@ == ".."@ {
                depth > 0 && valid_from(cmds, i + 1, depth - 1)
            } else {
                valid_from(cmds, i + 1, depth + 1)
            },
            Command::ListDirectory(_) => valid_from(cmds, i + 1, depth),
        }
    }
}

/// Replaying the commands from position `i` on, starting with working path
/// `path` and tree `t0`, ends with the tree `t`.
pub open spec fn builds_from(
    cmds: Seq<Command>,
    i: int,
    path: Seq<Seq<char>>,
    t0: Directory,
    t: Directory,
) -> bool
    decreases cmds.len() - i,
{
    if i < 0 || i >= cmds.len() {
        t == t0
    } else {
        match cmds[i] {
            Command::ChangeDirectory(tg) => if tg@ == "/"@ {
                builds_from(cmds, i + 1, Seq::empty(), t0, t)
            } else if tg@ == ".."@ {
                path.len() > 0 && builds_from(cmds, i + 1, path.drop_last(), t0, t)
            } else {
                builds_from(cmds, i + 1, path.push(tg@), t0, t)
            },
            Command::ListDirectory(d) => exists|t1: Directory|
                #![auto]
                is_insert_of(t1, t0, path, d) && t1.wf() && builds_from(cmds, i + 1, path, t1, t),
        }
    }
}

/// A directory with no contents at all.
pub open spec fn is_empty_dir(d: Directory) -> bool {
    d.files@.len() == 0 && d.subdirectories@.len() == 0
}

/// The whole session is well-formed: it opens with `cd /` and never pops
/// past the root.
pub open spec fn valid_commands(cmds: Seq<Command>) -> bool {
    &&& cmds.len() >= 1
    &&& cmds[0] matches Command::ChangeDirectory(t) && t@ == "/"@
    &&& valid_from(cmds, 1, 0)
}

/// `t` is the tree the session builds from a fresh empty root.
pub open spec fn builds_tree(cmds: Seq<Command>, t: Directory) -> bool {
    exists|e: Directory|
        #![auto]
        is_empty_dir(e) && builds_from(cmds, 1, Seq::empty(), e, t)
}

/// Replays a whole session: the first command must be `cd /`; each listing
/// is inserted at the working path as it stands. Returns the finished tree,
/// or nothing for a session that opens badly or pops past the root.
#[verifier::loop_isolation(false)]
pub fn build_tree(mut commands: Vec<Command>) -> (r: Option<Directory>)
    requires
        forall|i: int|
            0 <= i < commands@.len() ==> ((#[trigger] commands@[i]) matches Command::ListDirectory(
                d,
            ) ==> d.wf()),
    ensures
        r is Some <==> valid_commands(commands@),
        r matches Some(t) ==> t.wf() && builds_tree(commands@, t),
{
    let ghost c0 = commands@;
    proof {
        reveal_strlit("/");
    }
    if commands.len() == 0 {
        return None;
    }
    let first = commands.remove(0);
    proof {
        assert(commands@ =~= c0.skip(1));
    }
    match first {
        Command::ChangeDirectory(t) => {
            let ok = t.as_str().unicode_len() == 1 && t.as_str().get_char(0) == '/';
            if !ok {
                proof {
                    assert(t@ != "/"@) by {
                        if t@ == "/"@ {
                            assert(t@.len() == 1 && t@[0] == '/');
                        }
                    }
                }
                return None;
            }
            proof {
                assert(t@ =~= "/"@);
            }
        },
        Command::ListDirectory(_) => {
            return None;
        },
    }
    let mut tree = Directory::new();
    let ghost e0 = tree;
    let mut wp = WorkingPath::new();
    proof {
        assert(wp.view_segments() =~= Seq::<Seq<char>>::empty());
    }
    let ghost mut i: int = 1;
    while commands.len() > 0
        invariant
            1 <= i <= c0.len(),
            commands@ =~= c0.skip(i),
            tree.wf(),
            valid_from(c0, 1, 0) <==> valid_from(c0, i, wp.view_segments().len() as int),
            forall|tf: Directory|
                builds_from(c0, i, wp.view_segments(), tree, tf) ==> builds_from(
                    c0,
                    1,
                    Seq::empty(),
                    e0,
                    tf,
                ),
        decreases c0.len() - i,
    {
        let cmd = commands.remove(0);
        let ghost p_pre = wp.view_segments();
        let ghost t_pre = tree;
        proof {
            assert(cmd == c0.skip(i)[0]);
            assert(cmd == c0[i]);
            assert(commands@ =~= c0.skip(i + 1));
        }
        match cmd {
            Command::ChangeDirectory(t) => {
                let ok = wp.change(t.as_str());
                if !ok {
                    proof {
                        assert(t@ == ".."@ && p_pre.len() == 0);
                        assert(!valid_from(c0, i, 0));
                    }
                    return None;
                }
            },
            Command::ListDirectory(d) => {
                proof {
                    assert(c0[i] matches Command::ListDirectory(dd) && dd == d);
                    assert(d.wf());
                    assert(wp.segments@.map_values(|s: String| s@) =~= wp.view_segments());
                }
                let segs = wp.segments.as_slice();
                proof {
                    assert(segs.deep_view() =~= wp.view_segments());
                }
                tree.insert(segs, d);
                proof {
                    assert(is_insert_of(tree, t_pre, p_pre, d));
                    assert forall|tf: Directory|
                        builds_from(c0, i + 1, p_pre, tree, tf) implies builds_from(
                        c0,
                        1,
                        Seq::empty(),
                        e0,
                        tf,
                    ) by {
                        assert(builds_from(c0, i, p_pre, t_pre, tf)) by {
                            assert(is_insert_of(tree, t_pre, p_pre, d) && tree.wf()
                                && builds_from(c0, i + 1, p_pre, tree, tf));
                        }
                    }
                }
            },
        }
        proof {
            i = i + 1;
        }
    }
    proof {
        assert(c0.skip(i).len() == 0);
        assert(i == c0.len());
        assert(valid_from(c0, i, wp.view_segments().len() as int));
        assert(builds_from(c0, i, wp.view_segments(), tree, tree));
        assert(builds_from(c0, 1, Seq::empty(), e0, tree));
        assert(is_empty_dir(e0));
        assert(valid_commands(c0));
    }
    Some(tree)
}

} // verus!
