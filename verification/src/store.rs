//! The record store: reading records out of whole file contents and
//! rewriting whole contents on every mutation.
//!
//! Every function here works on contents handed in and out as plain
//! strings; opening, reading and writing the store file is the caller's
//! business. The first line of the contents is the header and is never
//! read as a record. Reading (`list`, `detail`) fails on the first
//! malformed record line; rewriting (`update`, `delete`) silently skips
//! malformed lines, as the file format has always been rewritten.

use vstd::prelude::*;

use crate::record::{field_wf, spec_parse_line, spec_record_line, spec_record_line_nl, todo_wf,
    lemma_parse_of_line, lemma_parsed_wf, lemma_record_line_no_newline, parse_line, Todo,
    TodoInput, TodoInputView, TodoUpdateInput, TodoUpdateInputView, TodoView};
use crate::split::{has_char, lemma_lines_no_newline, lemma_lines_nonempty, lemma_lines_snoc,
    lemma_split_single, spec_lines, split_lines};
use crate::status::TodoStatus;

verus! {

/// The text of the header line, without its newline.
pub open spec fn spec_header_body() -> Seq<char> {
    "id,name,status,description"@
}

/// The header line that opens every store file.
pub open spec fn spec_header() -> Seq<char> {
    spec_header_body() + seq!['\n']
}

/// The header line that opens every store file.
pub fn header_line() -> (r: String)
    ensures
        r@ == spec_header(),
{
    let r = "id,name,status,description\n".to_owned();
    proof {
        reveal_strlit("id,name,status,description\n");
        reveal_strlit("id,name,status,description");
        assert(r@ =~= spec_header());
    }
    r
}

/// The header's own line holds no newline, so the header is exactly one
/// line of the file.
proof fn lemma_header_line()
    ensures
        !has_char(spec_header_body(), '\n'),
        spec_lines(spec_header()) == seq![spec_header_body()],
{
    reveal_strlit("id,name,status,description");
    let b = spec_header_body();
    assert(!has_char(b, '\n')) by {
        if has_char(b, '\n') {
            let j = choose|j: int| 0 <= j < b.len() && b[j] == '\n';
            assert(false);
        }
    }
    let h = spec_header();
    assert(h.last() == '\n');
    assert(h.drop_last() =~= b);
    lemma_split_single(b, '\n');
}

/// `t` with the fields given in `u` replaced and the others kept.
pub open spec fn spec_apply_update(t: TodoView, u: TodoUpdateInputView) -> TodoView {
    TodoView {
        id: t.id,
        todo: TodoInputView {
            name: match u.name {
                Some(n) => n,
                None => t.todo.name,
            },
            description: match u.description {
                Some(d) => d,
                None => t.todo.description,
            },
            status: match u.status {
                Some(s) => s,
                None => t.todo.status,
            },
        },
    }
}

/// The fields that `u` provides can be carried by the file format.
pub open spec fn update_wf(u: TodoUpdateInputView) -> bool {
    &&& (u.name is Some ==> field_wf(u.name->Some_0))
    &&& (u.description is Some ==> field_wf(u.description->Some_0))
}

/// The records read from the record lines of the file, in order, or
/// nothing if any line is malformed: the all-or-nothing read.
pub open spec fn spec_records(lines: Seq<Seq<char>>) -> Option<Seq<TodoView>>
    decreases lines.len(),
{
    if lines.len() == 0 {
        Some(Seq::empty())
    } else {
        match spec_parse_line(lines[0]) {
            Some(t) => match spec_records(lines.drop_first()) {
                Some(rest) => Some(seq![t] + rest),
                None => None,
            },
            None => None,
        }
    }
}

/// The record lines of the contents `c`: every line but the header.
pub open spec fn spec_record_lines(c: Seq<char>) -> Seq<Seq<char>> {
    if spec_lines(c).len() == 0 {
        Seq::empty()
    } else {
        spec_lines(c).skip(1)
    }
}

/// All records held by the contents `c`, or nothing if any record line
/// is malformed.
pub open spec fn spec_list(c: Seq<char>) -> Option<Seq<TodoView>> {
    spec_records(spec_record_lines(c))
}

/// The first record in `rs` whose id is `id`, if any.
pub open spec fn spec_first_match(rs: Seq<TodoView>, id: Seq<char>) -> Option<TodoView>
    decreases rs.len(),
{
    if rs.len() == 0 {
        None
    } else if rs[0].id == id {
        Some(rs[0])
    } else {
        spec_first_match(rs.drop_first(), id)
    }
}

/// The first record of the contents `c` whose id is `id`; nothing when
/// there is none or when any record line is malformed.
pub open spec fn spec_detail(c: Seq<char>, id: Seq<char>) -> Option<TodoView> {
    match spec_list(c) {
        Some(rs) => spec_first_match(rs, id),
        None => None,
    }
}

/// The record lines written back by an update: every line that parses
/// is written out again, the ones whose id is the target with the given
/// fields replaced; malformed lines are dropped.
pub open spec fn spec_rewrite_update(
    lines: Seq<Seq<char>>,
    target: Seq<char>,
    u: TodoUpdateInputView,
) -> Seq<char>
    decreases lines.len(),
{
    if lines.len() == 0 {
        Seq::empty()
    } else {
        (match spec_parse_line(lines[0]) {
            Some(t) => spec_record_line_nl(
                if t.id == target {
                    spec_apply_update(t, u)
                } else {
                    t
                },
            ),
            None => Seq::empty(),
        }) + spec_rewrite_update(lines.drop_first(), target, u)
    }
}

/// The whole contents written back by an update of the record `target`.
pub open spec fn spec_update(c: Seq<char>, target: Seq<char>, u: TodoUpdateInputView) -> Seq<char> {
    spec_header() + spec_rewrite_update(spec_record_lines(c), target, u)
}

/// The record lines written back by a delete: every line that parses
/// and whose id is not the target is written out again; the target's
/// lines and malformed lines are dropped.
pub open spec fn spec_rewrite_delete(lines: Seq<Seq<char>>, target: Seq<char>) -> Seq<char>
    decreases lines.len(),
{
    if lines.len() == 0 {
        Seq::empty()
    } else {
        (match spec_parse_line(lines[0]) {
            Some(t) => if t.id == target {
                Seq::<char>::empty()
            } else {
                spec_record_line_nl(t)
            },
            None => Seq::<char>::empty(),
        }) + spec_rewrite_delete(lines.drop_first(), target)
    }
}

/// The whole contents written back by a delete of the record `target`.
pub open spec fn spec_delete(c: Seq<char>, target: Seq<char>) -> Seq<char> {
    spec_header() + spec_rewrite_delete(spec_record_lines(c), target)
}

/// Characters that the text of a version-4 uuid may hold.
pub open spec fn uuid_char(c: char) -> bool {
    c == '-' || ('0' <= c && c <= '9') || ('a' <= c && c <= 'f')
}

/// Relies on `uuid::Uuid::new_v4` and the `Display` form of `Uuid`: the
/// hyphenated text of a uuid is 36 characters, lowercase hexadecimal
/// digits and hyphens. Nothing more is assumed of the random value.
#[verifier::external_body]
fn fresh_uuid() -> (r: String)
    ensures
        r@.len() == 36,
        forall|i: int| 0 <= i < r@.len() ==> uuid_char(#[trigger] r@[i]),
{
    uuid::Uuid::new_v4().to_string()
}

/// Uuid text holds neither comma nor newline, so it can stand as the id
/// field of a record line.
pub proof fn lemma_uuid_field_wf(s: Seq<char>)
    requires
        forall|i: int| 0 <= i < s.len() ==> uuid_char(#[trigger] s[i]),
    ensures
        field_wf(s),
{
    if has_char(s, ',') {
        let j = choose|j: int| 0 <= j < s.len() && s[j] == ',';
        assert(uuid_char(s[j]));
        assert(false);
    }
    if has_char(s, '\n') {
        let j = choose|j: int| 0 <= j < s.len() && s[j] == '\n';
        assert(uuid_char(s[j]));
        assert(false);
    }
}

/// Create a record: a fresh random id is drawn, and the record's line
/// is appended to the contents; empty contents stand for a missing file
/// and get the header first. Returns the new id and the new contents.
pub fn create(contents: &str, input: &TodoInput) -> (r: (String, String))
    ensures
        r.1@ == (if contents@.len() == 0 {
            spec_header()
        } else {
            contents@
        }) + spec_record_line_nl((TodoView { id: r.0@, todo: input@ })),
        r.0@.len() == 36,
        forall|i: int| 0 <= i < r.0@.len() ==> uuid_char(#[trigger] r.0@[i]),
        field_wf(r.0@),
{
    let id = fresh_uuid();
    let line = input.line(id.as_str());
    let mut out = if contents.unicode_len() == 0 {
        header_line()
    } else {
        contents.to_owned()
    };
    out.append(line.as_str());
    proof {
        lemma_uuid_field_wf(id@);
    }
    (id, out)
}

/// Read all records out of the contents: the lines after the header,
/// each split on commas into exactly four fields. Nothing is returned
/// if any record line is malformed.
pub fn list(contents: &str) -> (r: Option<Vec<Todo>>)
    ensures
        match r {
            Some(v) => spec_list(contents@) == Some(v.deep_view()),
            None => spec_list(contents@) is None,
        },
{
    let lines = split_lines(contents);
    let ghost ls = spec_record_lines(contents@);
    let mut out: Vec<Todo> = Vec::new();
    let mut i: usize = 1;
    proof {
        assert(ls.take(0) =~= Seq::empty());
        assert(out.deep_view() =~= Seq::<TodoView>::empty());
    }
    while i < lines.len()
        invariant
            1 <= i,
            lines.len() == 0 ==> i == 1,
            lines.len() > 0 ==> i <= lines.len(),
            lines.deep_view() == spec_lines(contents@),
            ls == spec_record_lines(contents@),
            spec_records(ls.take(i - 1)) == Some(out.deep_view()),
        decreases lines.len() - i,
    {
        proof {
            assert(lines.deep_view()[i as int] == lines@[i as int]@);
            assert(ls[i - 1] == lines.deep_view()[i as int]);
        }
        match parse_line(lines[i].as_str()) {
            None => {
                proof {
                    lemma_records_bad_line(ls, i - 1);
                }
                return None;
            },
            Some(t) => {
                let ghost pre = out.deep_view();
                out.push(t);
                proof {
                    assert(out.deep_view() =~= pre.push(t@));
                    assert(ls.take(i as int) =~= ls.take(i - 1).push(ls[i - 1]));
                    lemma_records_snoc(ls.take(i - 1), ls[i - 1]);
                    assert(pre.push(t@) =~= pre + seq![t@]);
                }
            },
        }
        i = i + 1;
    }
    proof {
        assert(ls.take(i - 1) =~= ls);
    }
    Some(out)
}

/// A malformed line anywhere makes the whole read fail.
proof fn lemma_records_bad_line(lines: Seq<Seq<char>>, k: int)
    requires
        0 <= k < lines.len(),
        spec_parse_line(lines[k]) is None,
    ensures
        spec_records(lines) is None,
    decreases lines.len(),
{
    if k > 0 {
        lemma_records_bad_line(lines.drop_first(), k - 1);
    }
}

/// Reading one more line appends its record, or fails if it is
/// malformed.
proof fn lemma_records_snoc(lines: Seq<Seq<char>>, x: Seq<char>)
    ensures
        spec_records(lines.push(x)) == (match spec_records(lines) {
            Some(rs) => match spec_parse_line(x) {
                Some(t) => Some(rs.push(t)),
                None => None,
            },
            None => None,
        }),
    decreases lines.len(),
{
    let w = lines.push(x);
    if lines.len() == 0 {
        assert(w[0] == x);
        assert(w.drop_first() =~= Seq::<Seq<char>>::empty());
        assert(spec_records(Seq::<Seq<char>>::empty()) == Some(Seq::<TodoView>::empty()));
        assert(lines =~= Seq::<Seq<char>>::empty());
        if spec_parse_line(x) is Some {
            let t = spec_parse_line(x)->Some_0;
            assert(seq![t] + Seq::<TodoView>::empty() =~= Seq::<TodoView>::empty().push(t));
        }
    } else {
        assert(w[0] == lines[0]);
        assert(w.drop_first() =~= lines.drop_first().push(x));
        lemma_records_snoc(lines.drop_first(), x);
        if spec_records(lines) is Some && spec_parse_line(x) is Some {
            let t = spec_parse_line(x)->Some_0;
            let t0 = spec_parse_line(lines[0])->Some_0;
            let rest = spec_records(lines.drop_first())->Some_0;
            assert(seq![t0] + rest.push(t) =~= (seq![t0] + rest).push(t));
        }
    }
}

/// Find the record with the id `id`: the first match in an
/// all-or-nothing read of the contents.
pub fn detail(contents: &str, id: &str) -> (r: Option<Todo>)
    ensures
        match r {
            Some(t) => spec_detail(contents@, id@) == Some(t@),
            None => spec_detail(contents@, id@) is None,
        },
{
    let all = match list(contents) {
        Some(v) => v,
        None => {
            return None;
        },
    };
    let target: String = id.to_owned();
    let ghost rs = spec_list(contents@)->Some_0;
    let mut i: usize = 0;
    proof {
        assert(rs.skip(0) =~= rs);
    }
    while i < all.len()
        invariant
            0 <= i <= all.len(),
            all.deep_view() == rs,
            spec_list(contents@) == Some(rs),
            target@ == id@,
            spec_first_match(rs.skip(i as int), id@) == spec_first_match(rs, id@),
        decreases all.len() - i,
    {
        proof {
            assert(all.deep_view()[i as int] == all@[i as int]@);
            assert(rs.skip(i as int)[0] == rs[i as int]);
        }
        if all[i].id == target {
            let found = all[i].duplicate();
            return Some(found);
        }
        proof {
            assert(rs.skip(i as int).drop_first() =~= rs.skip(i as int + 1));
        }
        i = i + 1;
    }
    proof {
        assert(rs.skip(i as int) =~= Seq::<TodoView>::empty());
    }
    None
}

/// Rewrite the contents with the fields of the record `target_id`
/// replaced by those given in `input`. Every line that parses is
/// written back (the target updated, the others as they were read);
/// malformed lines are silently dropped. A missing target id leaves
/// every record as it was.
pub fn update(contents: &str, target_id: &str, input: &TodoUpdateInput) -> (r: String)
    ensures
        r@ == spec_update(contents@, target_id@, input@),
{
    let lines = split_lines(contents);
    let target: String = target_id.to_owned();
    let ghost ls = spec_record_lines(contents@);
    let mut result = header_line();
    let mut i: usize = 1;
    proof {
        assert(ls.take(0) =~= Seq::empty());
        assert(result@ =~= spec_header() + spec_rewrite_update(ls.take(0), target_id@, input@));
    }
    while i < lines.len()
        invariant
            1 <= i,
            lines.len() == 0 ==> i == 1,
            lines.len() > 0 ==> i <= lines.len(),
            lines.deep_view() == spec_lines(contents@),
            ls == spec_record_lines(contents@),
            target@ == target_id@,
            result@ == spec_header() + spec_rewrite_update(ls.take(i - 1), target_id@, input@),
        decreases lines.len() - i,
    {
        proof {
            assert(lines.deep_view()[i as int] == lines@[i as int]@);
            assert(ls[i - 1] == lines.deep_view()[i as int]);
        }
        let ghost piece_start = result@;
        match parse_line(lines[i].as_str()) {
            None => {},
            Some(t) => {
                let updated: Todo = if t.id == target {
                    Todo {
                        id: t.id,
                        todo: TodoInput {
                            name: match &input.name {
                                Some(n) => n.clone(),
                                None => t.todo.name,
                            },
                            description: match &input.description {
                                Some(d) => d.clone(),
                                None => t.todo.description,
                            },
                            status: match input.status {
                                Some(s) => s,
                                None => t.todo.status,
                            },
                        },
                    }
                } else {
                    t
                };
                let l = updated.line();
                result.append(l.as_str());
            },
        }
        proof {
            assert(ls.take(i as int) =~= ls.take(i - 1).push(ls[i - 1]));
            lemma_rewrite_update_snoc(ls.take(i - 1), ls[i - 1], target_id@, input@);
            assert(result@ =~= spec_header() + spec_rewrite_update(ls.take(i as int), target_id@,
                input@));
        }
        i = i + 1;
    }
    proof {
        assert(ls.take(i - 1) =~= ls);
    }
    result
}

/// Rewriting one more line appends what the update writes for it.
proof fn lemma_rewrite_update_snoc(
    lines: Seq<Seq<char>>,
    x: Seq<char>,
    target: Seq<char>,
    u: TodoUpdateInputView,
)
    ensures
        spec_rewrite_update(lines.push(x), target, u) == spec_rewrite_update(lines, target, u) + (
        match spec_parse_line(x) {
            Some(t) => spec_record_line_nl(
                if t.id == target {
                    spec_apply_update(t, u)
                } else {
                    t
                },
            ),
            None => Seq::<char>::empty(),
        }),
    decreases lines.len(),
{
    let w = lines.push(x);
    if lines.len() == 0 {
        assert(w[0] == x);
        assert(w.drop_first() =~= Seq::<Seq<char>>::empty());
        assert(spec_rewrite_update(Seq::<Seq<char>>::empty(), target, u) == Seq::<char>::empty());
        assert(lines =~= Seq::<Seq<char>>::empty());
        assert(spec_rewrite_update(w, target, u) =~= spec_rewrite_update(lines, target, u) + (
        match spec_parse_line(x) {
            Some(t) => spec_record_line_nl(
                if t.id == target {
                    spec_apply_update(t, u)
                } else {
                    t
                },
            ),
            None => Seq::<char>::empty(),
        }));
    } else {
        assert(w[0] == lines[0]);
        assert(w.drop_first() =~= lines.drop_first().push(x));
        lemma_rewrite_update_snoc(lines.drop_first(), x, target, u);
        assert(spec_rewrite_update(w, target, u) =~= spec_rewrite_update(lines, target, u) + (
        match spec_parse_line(x) {
            Some(t) => spec_record_line_nl(
                if t.id == target {
                    spec_apply_update(t, u)
                } else {
                    t
                },
            ),
            None => Seq::<char>::empty(),
        }));
    }
}

/// Rewrite the contents with every line of the record `target_id`
/// removed. Every other line that parses is written back as it was
/// read; malformed lines are silently dropped.
pub fn delete(contents: &str, target_id: &str) -> (r: String)
    ensures
        r@ == spec_delete(contents@, target_id@),
{
    let lines = split_lines(contents);
    let target: String = target_id.to_owned();
    let ghost ls = spec_record_lines(contents@);
    let mut result = header_line();
    let mut i: usize = 1;
    proof {
        assert(ls.take(0) =~= Seq::empty());
        assert(result@ =~= spec_header() + spec_rewrite_delete(ls.take(0), target_id@));
    }
    while i < lines.len()
        invariant
            1 <= i,
            lines.len() == 0 ==> i == 1,
            lines.len() > 0 ==> i <= lines.len(),
            lines.deep_view() == spec_lines(contents@),
            ls == spec_record_lines(contents@),
            target@ == target_id@,
            result@ == spec_header() + spec_rewrite_delete(ls.take(i - 1), target_id@),
        decreases lines.len() - i,
    {
        proof {
            assert(lines.deep_view()[i as int] == lines@[i as int]@);
            assert(ls[i - 1] == lines.deep_view()[i as int]);
        }
        match parse_line(lines[i].as_str()) {
            None => {},
            Some(t) => {
                if !(t.id == target) {
                    let l = t.line();
                    result.append(l.as_str());
                }
            },
        }
        proof {
            assert(ls.take(i as int) =~= ls.take(i - 1).push(ls[i - 1]));
            lemma_rewrite_delete_snoc(ls.take(i - 1), ls[i - 1], target_id@);
            assert(result@ =~= spec_header() + spec_rewrite_delete(ls.take(i as int), target_id@));
        }
        i = i + 1;
    }
    proof {
        assert(ls.take(i - 1) =~= ls);
    }
    result
}

/// Rewriting one more line appends what the delete keeps of it.
proof fn lemma_rewrite_delete_snoc(lines: Seq<Seq<char>>, x: Seq<char>, target: Seq<char>)
    ensures
        spec_rewrite_delete(lines.push(x), target) == spec_rewrite_delete(lines, target) + (
        match spec_parse_line(x) {
            Some(t) => if t.id == target {
                Seq::<char>::empty()
            } else {
                spec_record_line_nl(t)
            },
            None => Seq::<char>::empty(),
        }),
    decreases lines.len(),
{
    let w = lines.push(x);
    if lines.len() == 0 {
        assert(w[0] == x);
        assert(w.drop_first() =~= Seq::<Seq<char>>::empty());
        assert(spec_rewrite_delete(Seq::<Seq<char>>::empty(), target) == Seq::<char>::empty());
        assert(lines =~= Seq::<Seq<char>>::empty());
        assert(spec_rewrite_delete(w, target) =~= spec_rewrite_delete(lines, target) + (
        match spec_parse_line(x) {
            Some(t) => if t.id == target {
                Seq::<char>::empty()
            } else {
                spec_record_line_nl(t)
            },
            None => Seq::<char>::empty(),
        }));
    } else {
        assert(w[0] == lines[0]);
        assert(w.drop_first() =~= lines.drop_first().push(x));
        lemma_rewrite_delete_snoc(lines.drop_first(), x, target);
        assert(spec_rewrite_delete(w, target) =~= spec_rewrite_delete(lines, target) + (
        match spec_parse_line(x) {
            Some(t) => if t.id == target {
                Seq::<char>::empty()
            } else {
                spec_record_line_nl(t)
            },
            None => Seq::<char>::empty(),
        }));
    }
}

// ## The laws of the store
//
// The proof functions below state what the rewriting operations do to
// the records a store holds, over the same spec functions that the
// executable functions' contracts use.

/// The text that a sequence of records occupies in the file.
pub open spec fn spec_render(ts: Seq<TodoView>) -> Seq<char>
    decreases ts.len(),
{
    if ts.len() == 0 {
        Seq::empty()
    } else {
        spec_record_line_nl(ts[0]) + spec_render(ts.drop_first())
    }
}

/// Every record in `ts` can be carried by the file format.
pub open spec fn all_wf(ts: Seq<TodoView>) -> bool {
    forall|k: int| 0 <= k < ts.len() ==> todo_wf(#[trigger] ts[k])
}

/// The records of `rs` with the fields of `u` replaced on those whose
/// id is `target`.
pub open spec fn map_update(rs: Seq<TodoView>, target: Seq<char>, u: TodoUpdateInputView) -> Seq<
    TodoView,
> {
    Seq::new(
        rs.len(),
        |k: int|
            if rs[k].id == target {
                spec_apply_update(rs[k], u)
            } else {
                rs[k]
            },
    )
}

/// The records that survive a delete of `target`: every record line
/// that parses to another id, in order.
pub open spec fn spec_survivors(ls: Seq<Seq<char>>, target: Seq<char>) -> Seq<TodoView>
    decreases ls.len(),
{
    if ls.len() == 0 {
        Seq::empty()
    } else {
        (match spec_parse_line(ls[0]) {
            Some(t) => if t.id == target {
                Seq::<TodoView>::empty()
            } else {
                seq![t]
            },
            None => Seq::<TodoView>::empty(),
        }) + spec_survivors(ls.drop_first(), target)
    }
}

/// The records an update writes out, in order: every record line that
/// parses, those with the target id with the given fields replaced;
/// malformed lines are dropped.
pub open spec fn spec_updated_records(
    ls: Seq<Seq<char>>,
    target: Seq<char>,
    u: TodoUpdateInputView,
) -> Seq<TodoView>
    decreases ls.len(),
{
    if ls.len() == 0 {
        Seq::empty()
    } else {
        (match spec_parse_line(ls[0]) {
            Some(t) => seq![
                if t.id == target {
                    spec_apply_update(t, u)
                } else {
                    t
                },
            ],
            None => Seq::<TodoView>::empty(),
        }) + spec_updated_records(ls.drop_first(), target, u)
    }
}

/// No line of the record lines of any contents holds a newline.
proof fn lemma_record_lines_no_newline(c: Seq<char>)
    ensures
        forall|k: int|
            0 <= k < spec_record_lines(c).len() ==> !has_char(
                #[trigger] spec_record_lines(c)[k],
                '\n',
            ),
{
    lemma_lines_no_newline(c);
    let rl = spec_record_lines(c);
    if spec_lines(c).len() > 0 {
        assert forall|k: int| 0 <= k < rl.len() implies !has_char(#[trigger] rl[k], '\n') by {
            assert(rl[k] == spec_lines(c)[k + 1]);
        }
    }
}

/// Records read from newline-free lines are well formed.
proof fn lemma_records_wf(ls: Seq<Seq<char>>)
    requires
        spec_records(ls) is Some,
        forall|k: int| 0 <= k < ls.len() ==> !has_char(#[trigger] ls[k], '\n'),
    ensures
        all_wf(spec_records(ls)->Some_0),
    decreases ls.len(),
{
    if ls.len() > 0 {
        let rs = spec_records(ls)->Some_0;
        lemma_parsed_wf(ls[0]);
        assert(forall|k: int|
            0 <= k < ls.drop_first().len() ==> !has_char(#[trigger] ls.drop_first()[k], '\n'));
        lemma_records_wf(ls.drop_first());
        let rest = spec_records(ls.drop_first())->Some_0;
        assert forall|k: int| 0 <= k < rs.len() implies todo_wf(#[trigger] rs[k]) by {
            if k > 0 {
                assert(rs[k] == rest[k - 1]);
            }
        }
    }
}

/// Rendered records appended at a line boundary read back as exactly
/// their lines, one line per record.
proof fn lemma_lines_of_render(h: Seq<char>, ts: Seq<TodoView>)
    requires
        h.len() == 0 || h.last() == '\n',
        all_wf(ts),
    ensures
        spec_lines(h + spec_render(ts)) == spec_lines(h) + Seq::new(
            ts.len(),
            |k: int| spec_record_line(ts[k]),
        ),
    decreases ts.len(),
{
    if ts.len() == 0 {
        assert(h + spec_render(ts) =~= h);
        assert(spec_lines(h) + Seq::new(ts.len(), |k: int| spec_record_line(ts[k])) =~= spec_lines(
            h,
        ));
    } else {
        let t0 = ts[0];
        let rest = ts.drop_first();
        lemma_record_line_no_newline(t0);
        let h2 = h + spec_record_line_nl(t0);
        assert(h2 =~= h + spec_record_line(t0) + seq!['\n']);
        lemma_lines_snoc(h, spec_record_line(t0));
        assert(spec_lines(h2) == spec_lines(h) + seq![spec_record_line(t0)]);
        assert(h2.len() > 0 && h2.last() == '\n');
        assert(all_wf(rest)) by {
            assert forall|k: int| 0 <= k < rest.len() implies todo_wf(#[trigger] rest[k]) by {
                assert(rest[k] == ts[k + 1]);
            }
        }
        lemma_lines_of_render(h2, rest);
        assert(h + spec_render(ts) =~= h2 + spec_render(rest));
        assert(spec_lines(h) + Seq::new(ts.len(), |k: int| spec_record_line(ts[k])) =~= (spec_lines(
            h,
        ) + seq![spec_record_line(t0)]) + Seq::new(rest.len(), |k: int| spec_record_line(rest[k])));
    }
}

/// The rendered lines of well-formed records read back as the records.
proof fn lemma_records_of_render_lines(ts: Seq<TodoView>)
    requires
        all_wf(ts),
    ensures
        spec_records(Seq::new(ts.len(), |k: int| spec_record_line(ts[k]))) == Some(ts),
    decreases ts.len(),
{
    let lsn = Seq::new(ts.len(), |k: int| spec_record_line(ts[k]));
    if ts.len() == 0 {
        assert(lsn =~= Seq::<Seq<char>>::empty());
        assert(ts =~= Seq::<TodoView>::empty());
    } else {
        let rest = ts.drop_first();
        lemma_parse_of_line(ts[0]);
        assert(lsn[0] == spec_record_line(ts[0]));
        assert(lsn.drop_first() =~= Seq::new(rest.len(), |k: int| spec_record_line(rest[k])));
        assert(all_wf(rest)) by {
            assert forall|k: int| 0 <= k < rest.len() implies todo_wf(#[trigger] rest[k]) by {
                assert(rest[k] == ts[k + 1]);
            }
        }
        lemma_records_of_render_lines(rest);
        assert(seq![ts[0]] + rest =~= ts);
    }
}

/// What an update writes for record lines that all parse: the same
/// records rendered again, those with the target id updated.
proof fn lemma_rewrite_update_render(ls: Seq<Seq<char>>, target: Seq<char>, u: TodoUpdateInputView)
    requires
        spec_records(ls) is Some,
    ensures
        spec_rewrite_update(ls, target, u) == spec_render(
            map_update(spec_records(ls)->Some_0, target, u),
        ),
    decreases ls.len(),
{
    let rs = spec_records(ls)->Some_0;
    let m = map_update(rs, target, u);
    if ls.len() == 0 {
        assert(m =~= Seq::<TodoView>::empty());
    } else {
        let t0 = spec_parse_line(ls[0])->Some_0;
        let rest = spec_records(ls.drop_first())->Some_0;
        assert(rs == seq![t0] + rest);
        assert(rs[0] == t0);
        lemma_rewrite_update_render(ls.drop_first(), target, u);
        assert(m.drop_first() =~= map_update(rest, target, u)) by {
            assert(rs.drop_first() =~= rest);
        }
        assert(m[0] == (if t0.id == target {
            spec_apply_update(t0, u)
        } else {
            t0
        }));
        assert(spec_render(m) == spec_record_line_nl(m[0]) + spec_render(m.drop_first()));
    }
}

/// What a delete writes: the surviving records rendered again.
proof fn lemma_rewrite_delete_render(ls: Seq<Seq<char>>, target: Seq<char>)
    ensures
        spec_rewrite_delete(ls, target) == spec_render(spec_survivors(ls, target)),
    decreases ls.len(),
{
    let sv = spec_survivors(ls, target);
    if ls.len() == 0 {
    } else {
        let svrest = spec_survivors(ls.drop_first(), target);
        lemma_rewrite_delete_render(ls.drop_first(), target);
        match spec_parse_line(ls[0]) {
            Some(t0) => {
                if t0.id == target {
                    assert(sv =~= svrest);
                    assert(spec_rewrite_delete(ls, target) =~= spec_render(svrest));
                } else {
                    assert(sv[0] == t0);
                    assert(sv.drop_first() =~= svrest);
                    assert(spec_render(sv) == spec_record_line_nl(sv[0]) + spec_render(
                        sv.drop_first(),
                    ));
                }
            },
            None => {
                assert(sv =~= svrest);
                assert(spec_rewrite_delete(ls, target) =~= spec_render(svrest));
            },
        }
    }
}

/// Survivors of a delete are well formed and none of them holds the
/// deleted id.
proof fn lemma_survivors_props(ls: Seq<Seq<char>>, target: Seq<char>)
    requires
        forall|k: int| 0 <= k < ls.len() ==> !has_char(#[trigger] ls[k], '\n'),
    ensures
        all_wf(spec_survivors(ls, target)),
        forall|k: int|
            0 <= k < spec_survivors(ls, target).len() ==> (#[trigger] spec_survivors(ls, target)[k]).id
                != target,
    decreases ls.len(),
{
    let sv = spec_survivors(ls, target);
    if ls.len() > 0 {
        assert(forall|k: int|
            0 <= k < ls.drop_first().len() ==> !has_char(#[trigger] ls.drop_first()[k], '\n'));
        lemma_survivors_props(ls.drop_first(), target);
        let svrest = spec_survivors(ls.drop_first(), target);
        if spec_parse_line(ls[0]) is Some {
            lemma_parsed_wf(ls[0]);
        }
        assert forall|k: int| 0 <= k < sv.len() implies todo_wf(#[trigger] sv[k]) && sv[k].id
            != target by {
            let t0 = spec_parse_line(ls[0]);
            if t0 is Some && t0->Some_0.id != target {
                if k > 0 {
                    assert(sv[k] == svrest[k - 1]);
                }
            } else {
                assert(sv[k] == svrest[k]);
            }
        }
    }
}

/// What an update writes for any record lines: the updated records
/// rendered again.
proof fn lemma_rewrite_update_render_any(
    ls: Seq<Seq<char>>,
    target: Seq<char>,
    u: TodoUpdateInputView,
)
    ensures
        spec_rewrite_update(ls, target, u) == spec_render(spec_updated_records(ls, target, u)),
    decreases ls.len(),
{
    let m = spec_updated_records(ls, target, u);
    if ls.len() == 0 {
    } else {
        let mrest = spec_updated_records(ls.drop_first(), target, u);
        lemma_rewrite_update_render_any(ls.drop_first(), target, u);
        match spec_parse_line(ls[0]) {
            Some(t0) => {
                let t1 = if t0.id == target {
                    spec_apply_update(t0, u)
                } else {
                    t0
                };
                assert(m[0] == t1);
                assert(m.drop_first() =~= mrest);
                assert(spec_render(m) == spec_record_line_nl(m[0]) + spec_render(m.drop_first()));
            },
            None => {
                assert(m =~= mrest);
                assert(spec_rewrite_update(ls, target, u) =~= spec_render(mrest));
            },
        }
    }
}

/// Updated records of newline-free lines are well formed, provided the
/// fields the update writes are.
proof fn lemma_updated_records_wf(ls: Seq<Seq<char>>, target: Seq<char>, u: TodoUpdateInputView)
    requires
        update_wf(u),
        forall|k: int| 0 <= k < ls.len() ==> !has_char(#[trigger] ls[k], '\n'),
    ensures
        all_wf(spec_updated_records(ls, target, u)),
    decreases ls.len(),
{
    let m = spec_updated_records(ls, target, u);
    if ls.len() > 0 {
        assert(forall|k: int|
            0 <= k < ls.drop_first().len() ==> !has_char(#[trigger] ls.drop_first()[k], '\n'));
        lemma_updated_records_wf(ls.drop_first(), target, u);
        let mrest = spec_updated_records(ls.drop_first(), target, u);
        if spec_parse_line(ls[0]) is Some {
            lemma_parsed_wf(ls[0]);
        }
        assert forall|k: int| 0 <= k < m.len() implies todo_wf(#[trigger] m[k]) by {
            if spec_parse_line(ls[0]) is Some {
                if k > 0 {
                    assert(m[k] == mrest[k - 1]);
                }
            } else {
                assert(m[k] == mrest[k]);
            }
        }
    }
}

/// No record of `rs` holds the id `id`, so none is found.
proof fn lemma_first_match_none(rs: Seq<TodoView>, id: Seq<char>)
    requires
        forall|k: int| 0 <= k < rs.len() ==> (#[trigger] rs[k]).id != id,
    ensures
        spec_first_match(rs, id) is None,
    decreases rs.len(),
{
    if rs.len() > 0 {
        assert(forall|k: int|
            0 <= k < rs.drop_first().len() ==> (#[trigger] rs.drop_first()[k]).id != id);
        lemma_first_match_none(rs.drop_first(), id);
    }
}

/// A record appended behind records without the wanted id is found
/// exactly when its own id is the wanted one.
proof fn lemma_first_match_snoc(rs: Seq<TodoView>, t: TodoView, id: Seq<char>)
    requires
        spec_first_match(rs, id) is None,
    ensures
        spec_first_match(rs.push(t), id) == (if t.id == id {
            Some(t)
        } else {
            None::<TodoView>
        }),
    decreases rs.len(),
{
    let w = rs.push(t);
    if rs.len() == 0 {
        assert(w[0] == t);
        assert(w.drop_first() =~= Seq::<TodoView>::empty());
        assert(spec_first_match(Seq::<TodoView>::empty(), id) is None);
    } else {
        assert(w[0] == rs[0]);
        assert(w.drop_first() =~= rs.drop_first().push(t));
        lemma_first_match_snoc(rs.drop_first(), t, id);
    }
}

/// An update rewrites the store record for record: read back, the
/// rewritten contents hold the same records in the same order, those
/// with the target id with the given fields replaced, every other
/// record unchanged.
pub proof fn lemma_update_records(c: Seq<char>, target: Seq<char>, u: TodoUpdateInputView)
    requires
        spec_list(c) is Some,
        update_wf(u),
    ensures
        spec_list(spec_update(c, target, u)) == Some(map_update(spec_list(c)->Some_0, target, u)),
{
    let ls = spec_record_lines(c);
    let rs = spec_list(c)->Some_0;
    lemma_record_lines_no_newline(c);
    lemma_records_wf(ls);
    lemma_rewrite_update_render(ls, target, u);
    let m = map_update(rs, target, u);
    assert(all_wf(m)) by {
        assert forall|k: int| 0 <= k < m.len() implies todo_wf(#[trigger] m[k]) by {
            assert(todo_wf(rs[k]));
        }
    }
    lemma_header_line();
    lemma_lines_of_render(spec_header(), m);
    let mlines = Seq::new(m.len(), |k: int| spec_record_line(m[k]));
    assert(spec_lines(spec_update(c, target, u)) == seq![spec_header_body()] + mlines);
    assert(spec_record_lines(spec_update(c, target, u)) =~= mlines);
    lemma_records_of_render_lines(m);
}

/// An update never corrupts the store: whatever the contents held, as
/// long as the fields it writes can be carried by the file format,
/// what it writes reads back whole, as exactly the updated records.
pub proof fn lemma_update_reads_back(c: Seq<char>, target: Seq<char>, u: TodoUpdateInputView)
    requires
        update_wf(u),
    ensures
        spec_list(spec_update(c, target, u)) == Some(
            spec_updated_records(spec_record_lines(c), target, u),
        ),
{
    let ls = spec_record_lines(c);
    lemma_record_lines_no_newline(c);
    lemma_rewrite_update_render_any(ls, target, u);
    lemma_updated_records_wf(ls, target, u);
    let m = spec_updated_records(ls, target, u);
    lemma_header_line();
    lemma_lines_of_render(spec_header(), m);
    let mlines = Seq::new(m.len(), |k: int| spec_record_line(m[k]));
    assert(spec_lines(spec_update(c, target, u)) == seq![spec_header_body()] + mlines);
    assert(spec_record_lines(spec_update(c, target, u)) =~= mlines);
    lemma_records_of_render_lines(m);
}

/// Updating only the status changes only the status: every record
/// keeps its id, name and description; those with the target id get
/// the new status, every other record keeps its own.
pub proof fn lemma_update_status_only(c: Seq<char>, target: Seq<char>, st: TodoStatus)
    requires
        spec_list(c) is Some,
    ensures
        ({
            let rs = spec_list(c)->Some_0;
            let u = (TodoUpdateInputView { name: None, description: None, status: Some(st) });
            let after = spec_list(spec_update(c, target, u));
            &&& after is Some
            &&& after->Some_0.len() == rs.len()
            &&& forall|k: int|
                0 <= k < rs.len() ==> {
                    &&& (#[trigger] after->Some_0[k]).id == rs[k].id
                    &&& after->Some_0[k].todo.name == rs[k].todo.name
                    &&& after->Some_0[k].todo.description == rs[k].todo.description
                    &&& after->Some_0[k].todo.status == (if rs[k].id == target {
                        st
                    } else {
                        rs[k].todo.status
                    })
                }
        }),
{
    let u = TodoUpdateInputView { name: None, description: None, status: Some(st) };
    lemma_update_records(c, target, u);
}

/// An update whose target id no record holds leaves every record
/// unchanged; the rewrite reports no failure, it always returns
/// contents.
pub proof fn lemma_update_missing_id(c: Seq<char>, target: Seq<char>, u: TodoUpdateInputView)
    requires
        spec_list(c) is Some,
        update_wf(u),
        forall|k: int|
            0 <= k < spec_list(c)->Some_0.len() ==> (#[trigger] spec_list(c)->Some_0[k]).id
                != target,
    ensures
        spec_list(spec_update(c, target, u)) == Some(spec_list(c)->Some_0),
{
    lemma_update_records(c, target, u);
    let rs = spec_list(c)->Some_0;
    assert(map_update(rs, target, u) =~= rs);
}

/// A delete leaves exactly the surviving records, in order, and what
/// it writes always reads back whole, whatever the contents held
/// before.
pub proof fn lemma_delete_records(c: Seq<char>, target: Seq<char>)
    ensures
        spec_list(spec_delete(c, target)) == Some(spec_survivors(spec_record_lines(c), target)),
{
    let ls = spec_record_lines(c);
    lemma_record_lines_no_newline(c);
    lemma_survivors_props(ls, target);
    lemma_rewrite_delete_render(ls, target);
    let sv = spec_survivors(ls, target);
    lemma_header_line();
    lemma_lines_of_render(spec_header(), sv);
    let slines = Seq::new(sv.len(), |k: int| spec_record_line(sv[k]));
    assert(spec_lines(spec_delete(c, target)) == seq![spec_header_body()] + slines);
    assert(spec_record_lines(spec_delete(c, target)) =~= slines);
    lemma_records_of_render_lines(sv);
}

/// After a delete the deleted id is gone: `detail` on it reports
/// not-found, whatever the contents held before.
pub proof fn lemma_delete_then_detail(c: Seq<char>, target: Seq<char>)
    ensures
        spec_detail(spec_delete(c, target), target) is None,
{
    let ls = spec_record_lines(c);
    lemma_record_lines_no_newline(c);
    lemma_delete_records(c, target);
    lemma_survivors_props(ls, target);
    lemma_first_match_none(spec_survivors(ls, target), target);
}

/// A freshly created record is found again: after a create on
/// well-formed contents, under an id no existing record holds, a
/// `detail` of that id returns the record with the given fields.
pub proof fn lemma_create_then_detail(c: Seq<char>, id: Seq<char>, inp: TodoInputView)
    requires
        c.len() == 0 || c.last() == '\n',
        spec_list(c) is Some,
        field_wf(id),
        field_wf(inp.name),
        field_wf(inp.description),
        forall|k: int|
            0 <= k < spec_list(c)->Some_0.len() ==> (#[trigger] spec_list(c)->Some_0[k]).id != id,
    ensures
        ({
            let t = (TodoView { id: id, todo: inp });
            let base = if c.len() == 0 {
                spec_header()
            } else {
                c
            };
            spec_detail(base + spec_record_line_nl(t), id) == Some(t)
        }),
{
    let t = TodoView { id: id, todo: inp };
    assert(todo_wf(t));
    lemma_record_line_no_newline(t);
    lemma_parse_of_line(t);
    lemma_header_line();
    let base = if c.len() == 0 {
        spec_header()
    } else {
        c
    };
    let w = base + spec_record_line_nl(t);
    assert(w =~= base + spec_record_line(t) + seq!['\n']);
    lemma_lines_snoc(base, spec_record_line(t));
    assert(spec_lines(w) == spec_lines(base) + seq![spec_record_line(t)]);
    if c.len() == 0 {
        assert(spec_record_lines(w) =~= seq![spec_record_line(t)]);
        assert(spec_records(seq![spec_record_line(t)]) == Some(seq![t])) by {
            let one = seq![spec_record_line(t)];
            assert(one.drop_first() =~= Seq::<Seq<char>>::empty());
            assert(spec_records(Seq::<Seq<char>>::empty()) == Some(Seq::<TodoView>::empty()));
            assert(seq![t] + Seq::<TodoView>::empty() =~= seq![t]);
        }
        assert(spec_first_match(seq![t], id) == Some(t));
    } else {
        let rs = spec_list(c)->Some_0;
        lemma_lines_nonempty(c);
        assert(spec_record_lines(w) =~= spec_record_lines(c).push(spec_record_line(t)));
        lemma_records_snoc(spec_record_lines(c), spec_record_line(t));
        assert(spec_list(w) == Some(rs.push(t)));
        lemma_first_match_none(rs, id);
        lemma_first_match_snoc(rs, t, id);
    }
}

} // verus!
