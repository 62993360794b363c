use vstd::prelude::*;
use vstd::string::StrSliceExecFns;
use crate::store::views;
use crate::task::{Task, TaskView};

verus! {

/// Appending a character to a `String` appends it to the model.
///
/// Relies on `String::push`, which appends the given character to the end of
/// the string.
pub assume_specification[ String::push ](s: &mut String, ch: char)
    ensures
        final(s)@ == old(s)@.push(ch),
;

/// The escape sequence for one character of a task name: backslash and
/// newline are escaped so that a bare newline can terminate a record.
pub open spec fn esc_char(c: char) -> Seq<char> {
    if c == '\\' {
        seq!['\\', '\\']
    } else if c == '\n' {
        seq!['\\', 'n']
    } else {
        seq![c]
    }
}

/// A task name, escaped character by character.
pub open spec fn enc_name(name: Seq<char>) -> Seq<char>
    decreases name.len(),
{
    if name.len() == 0 {
        Seq::empty()
    } else {
        esc_char(name[0]) + enc_name(name.drop_first())
    }
}

/// The record flag: `'1'` for a completed task, `'0'` otherwise.
pub open spec fn flag_char(completed: bool) -> char {
    if completed {
        '1'
    } else {
        '0'
    }
}

/// One record: the flag, the escaped name, a terminating newline.
pub open spec fn enc_task(t: TaskView) -> Seq<char> {
    seq![flag_char(t.completed)] + enc_name(t.name) + seq!['\n']
}

/// A whole task sequence: its records, in order.
pub open spec fn enc_tasks(s: Seq<TaskView>) -> Seq<char>
    decreases s.len(),
{
    if s.len() == 0 {
        Seq::empty()
    } else {
        enc_task(s[0]) + enc_tasks(s.drop_first())
    }
}

pub proof fn lemma_enc_name_push(s: Seq<char>, c: char)
    ensures
        enc_name(s.push(c)) == enc_name(s) + esc_char(c),
    decreases s.len(),
{
    if s.len() == 0 {
        reveal_with_fuel(enc_name, 2);
        assert(s.push(c)[0] == c);
        assert(s.push(c).drop_first() =~= Seq::<char>::empty());
        assert(enc_name(s.push(c)) =~= enc_name(s) + esc_char(c));
    } else {
        assert(s.push(c).drop_first() =~= s.drop_first().push(c));
        lemma_enc_name_push(s.drop_first(), c);
        assert(enc_name(s.push(c)) =~= enc_name(s) + esc_char(c));
    }
}

pub proof fn lemma_enc_tasks_push(s: Seq<TaskView>, t: TaskView)
    ensures
        enc_tasks(s.push(t)) == enc_tasks(s) + enc_task(t),
    decreases s.len(),
{
    if s.len() == 0 {
        reveal_with_fuel(enc_tasks, 2);
        assert(s.push(t)[0] == t);
        assert(s.push(t).drop_first() =~= Seq::<TaskView>::empty());
        assert(enc_tasks(s.push(t)) =~= enc_tasks(s) + enc_task(t));
    } else {
        assert(s.push(t).drop_first() =~= s.drop_first().push(t));
        lemma_enc_tasks_push(s.drop_first(), t);
        assert(enc_tasks(s.push(t)) =~= enc_tasks(s) + enc_task(t));
    }
}

/// Parses an escaped name up to its terminating newline: the decoded name
/// and the input that remains after the newline, or `None` if the input ends
/// before an unescaped newline or holds an unknown escape.
pub open spec fn dec_name(s: Seq<char>) -> Option<(Seq<char>, Seq<char>)>
    decreases s.len(),
{
    if s.len() == 0 {
        None
    } else if s[0] == '\n' {
        Some((Seq::empty(), s.drop_first()))
    } else if s[0] == '\\' {
        if s.len() < 2 {
            None
        } else if s[1] == '\\' || s[1] == 'n' {
            let c = if s[1] == '\\' {
                '\\'
            } else {
                '\n'
            };
            match dec_name(s.skip(2)) {
                Some(p) => Some((seq![c] + p.0, p.1)),
                None => None,
            }
        } else {
            None
        }
    } else {
        match dec_name(s.drop_first()) {
            Some(p) => Some((seq![s[0]] + p.0, p.1)),
            None => None,
        }
    }
}

/// Parses a whole payload: the task sequence it encodes, or `None` if any
/// record is malformed or the payload ends mid-record.
pub open spec fn dec_tasks(s: Seq<char>) -> Option<Seq<TaskView>>
    decreases s.len(),
{
    if s.len() == 0 {
        Some(Seq::empty())
    } else if s[0] != '0' && s[0] != '1' {
        None
    } else {
        match dec_name(s.drop_first()) {
            Some(p) => {
                let t = TaskView { name: p.0, completed: s[0] == '1' };
                if p.1.len() < s.len() {
                    match dec_tasks(p.1) {
                        Some(rest) => Some(seq![t] + rest),
                        None => None,
                    }
                } else {
                    None
                }
            },
            None => None,
        }
    }
}

/// A successful name parse consumes at least the terminating newline.
pub proof fn lemma_dec_name_rest_len(s: Seq<char>)
    ensures
        dec_name(s) matches Some(p) ==> p.1.len() < s.len(),
    decreases s.len(),
{
    if s.len() == 0 {
    } else if s[0] == '\n' {
    } else if s[0] == '\\' {
        if s.len() >= 2 {
            lemma_dec_name_rest_len(s.skip(2));
        }
    } else {
        lemma_dec_name_rest_len(s.drop_first());
    }
}

/// Decoding inverts the name encoding: the name comes back exactly and the
/// input after the terminating newline is left untouched.
pub proof fn lemma_dec_name_enc(name: Seq<char>, rest: Seq<char>)
    ensures
        dec_name(enc_name(name) + seq!['\n'] + rest) == Some((name, rest)),
    decreases name.len(),
{
    let s = enc_name(name) + seq!['\n'] + rest;
    if name.len() == 0 {
        assert(s =~= seq!['\n'] + rest);
        assert(s[0] == '\n');
        assert(s.drop_first() =~= rest);
        let p = dec_name(s)->Some_0;
        assert(p.0 =~= name);
    } else {
        let c = name[0];
        let tail = name.drop_first();
        lemma_dec_name_enc(tail, rest);
        let s_tail = enc_name(tail) + seq!['\n'] + rest;
        assert(s =~= esc_char(c) + s_tail);
        if c == '\\' {
            assert(s[0] == '\\' && s[1] == '\\');
            assert(s.skip(2) =~= s_tail);
            let p = dec_name(s)->Some_0;
            assert(p.0 =~= name);
        } else if c == '\n' {
            assert(s[0] == '\\' && s[1] == 'n');
            assert(s.skip(2) =~= s_tail);
            let p = dec_name(s)->Some_0;
            assert(p.0 =~= name);
        } else {
            assert(s[0] == c);
            assert(s.drop_first() =~= s_tail);
            let p = dec_name(s)->Some_0;
            assert(p.0 =~= name);
        }
    }
}

/// Decoding inverts the encoding: any task sequence is recovered exactly
/// from its payload.
pub proof fn lemma_dec_enc_tasks(s: Seq<TaskView>)
    ensures
        dec_tasks(enc_tasks(s)) == Some(s),
    decreases s.len(),
{
    let e = enc_tasks(s);
    if s.len() == 0 {
        assert(dec_tasks(e)->Some_0 =~= s);
    } else {
        let t = s[0];
        let rest_ts = s.drop_first();
        lemma_dec_enc_tasks(rest_ts);
        let flag = flag_char(t.completed);
        assert(e =~= seq![flag] + (enc_name(t.name) + seq!['\n'] + enc_tasks(rest_ts)));
        assert(e[0] == flag);
        assert(e.drop_first() =~= enc_name(t.name) + seq!['\n'] + enc_tasks(rest_ts));
        lemma_dec_name_enc(t.name, enc_tasks(rest_ts));
        lemma_dec_name_rest_len(e.drop_first());
        let p = dec_name(e.drop_first())->Some_0;
        assert(p.1.len() < e.len());
        assert((TaskView { name: p.0, completed: e[0] == '1' }) == t);
        assert(dec_tasks(e)->Some_0 =~= s);
    }
}

/// Appends the escaped form of `name` to `out`.
fn push_escaped(out: &mut String, name: &str)
    ensures
        final(out)@ == old(out)@ + enc_name(name@),
{
    let n = name.unicode_len();
    let mut j: usize = 0;
    while j < n
        invariant
            n == name@.len(),
            j <= n,
            out@ == old(out)@ + enc_name(name@.take(j as int)),
        decreases n - j,
    {
        let c = name.get_char(j);
        proof {
            assert(name@.take(j + 1) =~= name@.take(j as int).push(c));
            lemma_enc_name_push(name@.take(j as int), c);
        }
        let ghost mid = out@;
        if c == '\\' {
            out.push('\\');
            out.push('\\');
            assert(out@ =~= mid + esc_char(c));
        } else if c == '\n' {
            out.push('\\');
            out.push('n');
            assert(out@ =~= mid + esc_char(c));
        } else {
            out.push(c);
            assert(out@ =~= mid + esc_char(c));
        }
        proof {
            assert(out@ =~= old(out)@ + enc_name(name@.take(j + 1)));
        }
        j += 1;
    }
    proof {
        assert(name@.take(n as int) =~= name@);
    }
}

/// Encodes a task vector as the concatenation of its records.
pub fn encode_tasks(tasks: &Vec<Task>) -> (r: String)
    ensures
        r@ == enc_tasks(views(tasks@)),
{
    let mut out = String::new();
    let n = tasks.len();
    let mut i: usize = 0;
    while i < n
        invariant
            n == tasks@.len(),
            i <= n,
            out@ == enc_tasks(views(tasks@).take(i as int)),
        decreases n - i,
    {
        let t = &tasks[i];
        proof {
            assert(views(tasks@)[i as int] == t@);
            assert(views(tasks@).take(i + 1) =~= views(tasks@).take(i as int).push(t@));
            lemma_enc_tasks_push(views(tasks@).take(i as int), t@);
        }
        let ghost pre = out@;
        let flag = if t.completed {
            '1'
        } else {
            '0'
        };
        out.push(flag);
        push_escaped(&mut out, t.name.as_str());
        out.push('\n');
        proof {
            assert(flag == flag_char(t@.completed));
            assert(out@ =~= pre + enc_task(t@));
            assert(out@ =~= enc_tasks(views(tasks@).take(i + 1)));
        }
        i += 1;
    }
    proof {
        assert(views(tasks@).take(n as int) =~= views(tasks@));
    }
    out
}

/// Parses one escaped name beginning at `start`; returns the name and the
/// position just after the terminating newline.
fn decode_name(data: &str, start: usize) -> (r: Option<(String, usize)>)
    requires
        start <= data@.len(),
    ensures
        match r {
            Some(p) => start < p.1 <= data@.len() && dec_name(data@.skip(start as int)) == Some(
                (p.0@, data@.skip(p.1 as int)),
            ),
            None => dec_name(data@.skip(start as int)) is None,
        },
{
    let n = data.unicode_len();
    let mut name = String::new();
    let mut j: usize = start;
    proof {
        match dec_name(data@.skip(start as int)) {
            Some(p) => {
                assert((Seq::<char>::empty() + p.0, p.1) =~~= p);
            },
            None => {},
        }
    }
    while j < n
        invariant
            n == data@.len(),
            start <= j <= n,
            dec_name(data@.skip(j as int)) matches Some(p) ==> dec_name(
                data@.skip(start as int),
            ) == Some((name@ + p.0, p.1)),
            dec_name(data@.skip(j as int)) is None ==> dec_name(
                data@.skip(start as int),
            ) is None,
        decreases n - j,
    {
        let ghost s_j = data@.skip(j as int);
        let c = data.get_char(j);
        proof {
            assert(s_j[0] == data@[j as int]);
        }
        if c == '\n' {
            proof {
                assert(s_j.drop_first() =~= data@.skip(j + 1));
                assert(dec_name(s_j) =~~= Some((Seq::<char>::empty(), data@.skip(j + 1))));
                assert(name@ + Seq::<char>::empty() =~= name@);
            }
            return Some((name, j + 1));
        } else if c == '\\' {
            if j + 1 >= n {
                proof {
                    assert(s_j.len() < 2);
                    assert(dec_name(s_j) is None);
                }
                return None;
            }
            let c2 = data.get_char(j + 1);
            proof {
                assert(s_j[1] == data@[j + 1]);
            }
            if c2 == '\\' || c2 == 'n' {
                let ghost pre = name@;
                let ghost dc = if c2 == '\\' {
                    '\\'
                } else {
                    '\n'
                };
                if c2 == '\\' {
                    name.push('\\');
                } else {
                    name.push('\n');
                }
                proof {
                    assert(s_j.skip(2) =~= data@.skip(j + 2));
                    match dec_name(data@.skip(j + 2)) {
                        Some(p) => {
                            assert(dec_name(s_j) == Some((seq![dc] + p.0, p.1)));
                            assert(pre + (seq![dc] + p.0) =~= name@ + p.0);
                        },
                        None => {},
                    }
                }
                j += 2;
            } else {
                proof {
                    assert(dec_name(s_j) is None);
                }
                return None;
            }
        } else {
            let ghost pre = name@;
            name.push(c);
            proof {
                assert(s_j.drop_first() =~= data@.skip(j + 1));
                match dec_name(data@.skip(j + 1)) {
                    Some(p) => {
                        assert(dec_name(s_j) == Some((seq![c] + p.0, p.1)));
                        assert(pre + (seq![c] + p.0) =~= name@ + p.0);
                    },
                    None => {},
                }
            }
            j += 1;
        }
    }
    proof {
        assert(data@.skip(n as int).len() == 0);
        assert(dec_name(data@.skip(n as int)) is None);
    }
    None
}

/// Decodes a payload; `None` on any input that no task sequence encodes to.
pub fn decode_tasks(data: &str) -> (r: Option<Vec<Task>>)
    ensures
        match r {
            Some(ts) => dec_tasks(data@) == Some(views(ts@)),
            None => dec_tasks(data@) is None,
        },
{
    let n = data.unicode_len();
    let mut acc: Vec<Task> = Vec::new();
    let mut i: usize = 0;
    proof {
        assert(data@.skip(0) =~= data@);
        match dec_tasks(data@.skip(0)) {
            Some(ts) => {
                assert(views(acc@) + ts =~= ts);
            },
            None => {},
        }
    }
    while i < n
        invariant
            n == data@.len(),
            i <= n,
            dec_tasks(data@.skip(i as int)) matches Some(ts) ==> dec_tasks(data@) == Some(
                views(acc@) + ts,
            ),
            dec_tasks(data@.skip(i as int)) is None ==> dec_tasks(data@) is None,
        decreases n - i,
    {
        let ghost s_i = data@.skip(i as int);
        let flag = data.get_char(i);
        proof {
            assert(s_i[0] == data@[i as int]);
        }
        if flag != '0' && flag != '1' {
            proof {
                assert(dec_tasks(s_i) is None);
            }
            return None;
        }
        let parsed = decode_name(data, i + 1);
        proof {
            assert(s_i.drop_first() =~= data@.skip(i + 1));
        }
        match parsed {
            None => {
                proof {
                    assert(dec_tasks(s_i) is None);
                }
                return None;
            },
            Some(p) => {
                let (name, next) = p;
                let completed = flag == '1';
                let ghost tv = TaskView { name: name@, completed: flag == '1' };
                proof {
                    assert(data@.skip(next as int).len() < s_i.len());
                    match dec_tasks(data@.skip(next as int)) {
                        Some(rest) => {
                            assert(dec_tasks(s_i) == Some(seq![tv] + rest));
                        },
                        None => {
                            assert(dec_tasks(s_i) is None);
                        },
                    }
                }
                let ghost pre = acc@;
                acc.push(Task { name, completed });
                proof {
                    assert(views(acc@) =~= views(pre).push(tv));
                    match dec_tasks(data@.skip(next as int)) {
                        Some(rest) => {
                            assert(views(pre) + (seq![tv] + rest) =~= views(acc@) + rest);
                        },
                        None => {},
                    }
                }
                i = next;
            },
        }
    }
    proof {
        assert(data@.skip(n as int).len() == 0);
        assert(views(acc@) + Seq::<TaskView>::empty() =~= views(acc@));
    }
    Some(acc)
}

} // verus!
