//! Todo records and their one-line text form.
//!
//! A record is stored as one line `id,name,status,description` where the
//! status stands as its integer tag. Fields are not escaped, so a field
//! holding a comma or a newline cannot be read back; `field_wf` names the
//! fields that can.

use vstd::prelude::*;

use crate::split::{has_char, lemma_join_split, lemma_split_append, lemma_split_fields,
    lemma_split_single, spec_join, spec_split};
use crate::status::{is_digit_seq, spec_digit_value, spec_digits_value, spec_parse_status,
    parse_status, TodoStatus};

verus! {

/// The caller-chosen fields of a record: everything but the id.
#[derive(Clone, Debug)]
pub struct TodoInput {
    pub name: String,
    pub description: String,
    pub status: TodoStatus,
}

/// A change to a record: fields left `None` keep their stored value.
#[derive(Clone, Debug)]
pub struct TodoUpdateInput {
    pub name: Option<String>,
    pub description: Option<String>,
    pub status: Option<TodoStatus>,
}

/// One stored record.
#[derive(Clone, Debug)]
pub struct Todo {
    pub id: String,
    pub todo: TodoInput,
}

/// Mathematical model of [`TodoInput`].
pub struct TodoInputView {
    pub name: Seq<char>,
    pub description: Seq<char>,
    pub status: TodoStatus,
}

/// Mathematical model of [`TodoUpdateInput`].
pub struct TodoUpdateInputView {
    pub name: Option<Seq<char>>,
    pub description: Option<Seq<char>>,
    pub status: Option<TodoStatus>,
}

/// Mathematical model of [`Todo`].
pub struct TodoView {
    pub id: Seq<char>,
    pub todo: TodoInputView,
}

impl View for TodoInput {
    type V = TodoInputView;

    open spec fn view(&self) -> TodoInputView {
        TodoInputView { name: self.name@, description: self.description@, status: self.status }
    }
}

impl DeepView for TodoInput {
    type V = TodoInputView;

    open spec fn deep_view(&self) -> TodoInputView {
        self@
    }
}

impl View for TodoUpdateInput {
    type V = TodoUpdateInputView;

    open spec fn view(&self) -> TodoUpdateInputView {
        TodoUpdateInputView {
            name: self.name.deep_view(),
            description: self.description.deep_view(),
            status: self.status,
        }
    }
}

impl View for Todo {
    type V = TodoView;

    open spec fn view(&self) -> TodoView {
        TodoView { id: self.id@, todo: self.todo@ }
    }
}

impl DeepView for Todo {
    type V = TodoView;

    open spec fn deep_view(&self) -> TodoView {
        self@
    }
}

/// A field that the file format can carry: free of the comma that
/// separates fields and of the newline that ends the line.
pub open spec fn field_wf(s: Seq<char>) -> bool {
    !has_char(s, ',') && !has_char(s, '\n')
}

/// All fields of the record can be carried by the file format.
pub open spec fn todo_wf(t: TodoView) -> bool {
    field_wf(t.id) && field_wf(t.todo.name) && field_wf(t.todo.description)
}

/// The one-line text form of a record, without its closing newline.
pub open spec fn spec_record_line(t: TodoView) -> Seq<char> {
    t.id + seq![','] + t.todo.name + seq![','] + seq![t.todo.status.spec_digit()] + seq![',']
        + t.todo.description
}

/// The one-line text form of a record, closed by a newline: what one
/// record occupies in the file.
pub open spec fn spec_record_line_nl(t: TodoView) -> Seq<char> {
    spec_record_line(t) + seq!['\n']
}

/// The record encoded by one line of the file (the line's newline
/// already stripped): the line must split on commas into exactly four
/// fields, with a status field that holds a stored integer tag.
pub open spec fn spec_parse_line(line: Seq<char>) -> Option<TodoView> {
    let fs = spec_split(line, ',');
    if fs.len() == 4 {
        match spec_parse_status(fs[2]) {
            Some(st) => Some(
                TodoView {
                    id: fs[0],
                    todo: TodoInputView { name: fs[1], description: fs[3], status: st },
                },
            ),
            None => None,
        }
    } else {
        None
    }
}

impl TodoInput {
    /// The line this input occupies in the file under the id `id`,
    /// newline included.
    pub fn line(&self, id: &str) -> (r: String)
        ensures
            r@ == spec_record_line_nl(TodoView { id: id@, todo: self@ }),
    {
        let mut r = id.to_owned();
        r.append(",");
        r.append(self.name.as_str());
        r.append(",");
        r.append(self.status.digit_str());
        r.append(",");
        r.append(self.description.as_str());
        r.append("\n");
        proof {
            reveal_strlit(",");
            reveal_strlit("\n");
            assert(","@ =~= seq![',']);
            assert("\n"@ =~= seq!['\n']);
            assert(r@ =~= spec_record_line_nl(TodoView { id: id@, todo: self@ }));
        }
        r
    }
}

impl Todo {
    /// The line this record occupies in the file, newline included.
    pub fn line(&self) -> (r: String)
        ensures
            r@ == spec_record_line_nl(self@),
    {
        self.todo.line(self.id.as_str())
    }

    /// An owned copy of this record.
    pub fn duplicate(&self) -> (r: Todo)
        ensures
            r@ == self@,
    {
        Todo {
            id: self.id.clone(),
            todo: TodoInput {
                name: self.todo.name.clone(),
                description: self.todo.description.clone(),
                status: self.todo.status,
            },
        }
    }
}

/// Parse one line of the file (without its newline) back into a record.
pub fn parse_line(line: &str) -> (r: Option<Todo>)
    ensures
        match r {
            Some(t) => spec_parse_line(line@) == Some(t@),
            None => spec_parse_line(line@) is None,
        },
{
    let fields = crate::split::split_str(line, ',');
    if fields.len() != 4 {
        return None;
    }
    proof {
        assert(fields.deep_view()[2] == fields@[2]@);
    }
    let st = match parse_status(fields[2].as_str()) {
        Some(st) => st,
        None => {
            return None;
        },
    };
    let t = Todo {
        id: fields[0].clone(),
        todo: TodoInput {
            name: fields[1].clone(),
            description: fields[3].clone(),
            status: st,
        },
    };
    proof {
        assert(fields.deep_view()[0] == fields@[0]@);
        assert(fields.deep_view()[1] == fields@[1]@);
        assert(fields.deep_view()[3] == fields@[3]@);
        assert(spec_parse_line(line@) == Some(t@));
    }
    Some(t)
}

/// A record read from a newline-free line can be carried by the file
/// format: its fields came out of a comma split of that line.
pub proof fn lemma_parsed_wf(line: Seq<char>)
    requires
        !has_char(line, '\n'),
        spec_parse_line(line) is Some,
    ensures
        todo_wf(spec_parse_line(line)->Some_0),
{
    let fs = spec_split(line, ',');
    lemma_split_fields(line, ',');
    lemma_join_split(line, ',');
    assert forall|k: int| 0 <= k < fs.len() implies !has_char(#[trigger] fs[k], '\n') by {
        if has_char(fs[k], '\n') {
            let j = choose|j: int| 0 <= j < fs[k].len() && fs[k][j] == '\n';
            lemma_join_mem(fs, ',', k, j);
        }
    }
}

/// A character inside any field occurs in the joined sequence.
proof fn lemma_join_mem(fs: Seq<Seq<char>>, sep: char, k: int, j: int)
    requires
        0 <= k < fs.len(),
        0 <= j < fs[k].len(),
    ensures
        has_char(spec_join(fs, sep), fs[k][j]),
    decreases fs.len(),
{
    let w = spec_join(fs, sep);
    if fs.len() == 1 {
        assert(w[j] == fs[0][j]);
    } else if k == 0 {
        assert(w[j] == fs[0][j]);
    } else {
        lemma_join_mem(fs.drop_first(), sep, k - 1, j);
        let rest = spec_join(fs.drop_first(), sep);
        let i = choose|i: int| 0 <= i < rest.len() && rest[i] == fs[k][j];
        assert(w[fs[0].len() + 1 + i] == rest[i]);
    }
}

/// The line of a well-formed record holds no newline: it stays one
/// line of the file.
pub proof fn lemma_record_line_no_newline(t: TodoView)
    requires
        todo_wf(t),
    ensures
        !has_char(spec_record_line(t), '\n'),
{
    let line = spec_record_line(t);
    let d = t.todo.status.spec_digit();
    if has_char(line, '\n') {
        let i = choose|i: int| 0 <= i < line.len() && line[i] == '\n';
        let a = t.id.len() as int;
        let b = a + 1 + t.todo.name.len() as int;
        let c = b + 2;
        if i < a {
            assert(t.id[i] == '\n');
        } else if i == a {
            assert(line[i] == ',');
        } else if i < b {
            assert(t.todo.name[i - a - 1] == '\n');
        } else if i == b {
            assert(line[i] == ',');
        } else if i == b + 1 {
            assert(line[i] == d);
        } else if i == c {
            assert(line[i] == ',');
        } else {
            assert(t.todo.description[i - c - 1] == '\n');
        }
        assert(false);
    }
}

/// Reading back the line of a well-formed record gives the record:
/// deserialization inverts serialization.
pub proof fn lemma_parse_of_line(t: TodoView)
    requires
        todo_wf(t),
    ensures
        spec_parse_line(spec_record_line(t)) == Some(t),
{
    let d = t.todo.status.spec_digit();
    let line = spec_record_line(t);
    assert(!has_char(seq![d], ',')) by {
        if has_char(seq![d], ',') {
            let j = choose|j: int| 0 <= j < 1 && seq![d][j] == ',';
        }
    }
    assert(line =~= t.id + seq![','] + (t.todo.name + seq![','] + (seq![d] + seq![',']
        + t.todo.description)));
    lemma_split_append(t.id, t.todo.name + seq![','] + (seq![d] + seq![','] + t.todo.description),
        ',');
    lemma_split_append(t.todo.name, seq![d] + seq![','] + t.todo.description, ',');
    lemma_split_append(seq![d], t.todo.description, ',');
    lemma_split_single(t.id, ',');
    lemma_split_single(t.todo.name, ',');
    lemma_split_single(t.todo.description, ',');
    let fs = spec_split(line, ',');
    assert(fs =~= seq![t.id, t.todo.name, seq![d], t.todo.description]);
    assert(spec_digits_value(seq![d]) == t.todo.status.spec_code()) by {
        assert(seq![d].drop_last() =~= Seq::<char>::empty());
        assert(spec_digits_value(Seq::<char>::empty()) == 0);
        assert(seq![d].last() == d);
    }
    assert(is_digit_seq(seq![d]));
    assert(spec_parse_status(seq![d]) == Some(t.todo.status));
    assert(spec_parse_line(line) == Some(t));
}

/// Writing out the record read from a well-formed line gives the line
/// back: serialization inverts deserialization. The status field must
/// stand in its canonical one-digit form; a line such as `a,b,01,c`
/// reads back, but writes out with the tag `1`.
pub proof fn lemma_line_of_parse(line: Seq<char>)
    requires
        spec_parse_line(line) is Some,
        spec_split(line, ',')[2].len() == 1,
    ensures
        spec_record_line(spec_parse_line(line)->Some_0) == line,
{
    let fs = spec_split(line, ',');
    let t = spec_parse_line(line)->Some_0;
    let f2 = fs[2];
    let c = f2[0];
    assert(is_digit_seq(f2));
    assert(spec_digits_value(f2) == spec_digit_value(c)->Some_0) by {
        assert(f2.drop_last() =~= Seq::<char>::empty());
        assert(f2.last() == c);
    }
    assert(f2 =~= seq![c]);
    assert(seq![t.todo.status.spec_digit()] =~= f2);
    lemma_join_split(line, ',');
    assert(spec_join(fs, ',') == fs[0] + seq![','] + spec_join(fs.drop_first(), ','));
    assert(spec_join(fs.drop_first(), ',') == fs[1] + seq![','] + spec_join(
        fs.drop_first().drop_first(), ','));
    assert(fs.drop_first()[0] == fs[1]);
    assert(fs.drop_first().drop_first()[0] == fs[2]);
    assert(fs.drop_first().drop_first()[1] == fs[3]);
    assert(fs.drop_first().drop_first().len() == 2);
    assert(spec_join(fs.drop_first().drop_first(), ',') == fs[2] + seq![','] + spec_join(
        fs.drop_first().drop_first().drop_first(), ','));
    assert(fs.drop_first().drop_first().drop_first() =~= seq![fs[3]]);
    assert(spec_join(seq![fs[3]], ',') == fs[3]);
    assert(spec_record_line(t) =~= line);
}

} // verus!
