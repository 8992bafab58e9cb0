//! A verified organization roster: applies "Add", "Remove" and "Move"
//! commands to a table of departments and their members.

use crate::strutil::{chars_of, string_of};
use vstd::prelude::*;

verus! {

/// An ASCII whitespace character: the separators that end a word.
pub open spec fn is_word_space(c: char) -> bool {
    c == ' ' || c == '\t' || c == '\n' || c == '\r' || c == '\u{c}'
}

/// One step of whitespace splitting: a whitespace character finishes the
/// current word, anything else extends it.
pub open spec fn words_step(st: (Seq<char>, Seq<Seq<char>>), c: char) -> (Seq<char>, Seq<
    Seq<char>,
>) {
    if is_word_space(c) {
        if st.0.len() > 0 {
            (Seq::<char>::empty(), st.1.push(st.0))
        } else {
            st
        }
    } else {
        (st.0.push(c), st.1)
    }
}

/// The splitter state after reading a whole character sequence.
pub open spec fn words_run(s: Seq<char>) -> (Seq<char>, Seq<Seq<char>>)
    decreases s.len(),
{
    if s.len() == 0 {
        (Seq::<char>::empty(), Seq::<Seq<char>>::empty())
    } else {
        words_step(words_run(s.drop_last()), s.last())
    }
}

/// The whitespace-separated words of a character sequence.
pub open spec fn words_of(s: Seq<char>) -> Seq<Seq<char>> {
    let st = words_run(s);
    if st.0.len() > 0 {
        st.1.push(st.0)
    } else {
        st.1
    }
}

/// The index of the department with the given name, or a negative value
/// if there is none.
pub open spec fn find_dept(st: Seq<(Seq<char>, Seq<Seq<char>>)>, name: Seq<char>) -> int
    decreases st.len(),
{
    if st.len() == 0 {
        -1
    } else if st[0].0 == name {
        0
    } else {
        let r = find_dept(st.drop_first(), name);
        if r < 0 {
            -1
        } else {
            1 + r
        }
    }
}

/// The index of the first occurrence of `person`, or a negative value if
/// absent.
pub open spec fn find_member(members: Seq<Seq<char>>, person: Seq<char>) -> int
    decreases members.len(),
{
    if members.len() == 0 {
        -1
    } else if members[0] == person {
        0
    } else {
        let r = find_member(members.drop_first(), person);
        if r < 0 {
            -1
        } else {
            1 + r
        }
    }
}

/// Adds a person to a department, creating the department at the end of
/// the table if needed; a person already present is not added twice.
pub open spec fn add_person(
    st: Seq<(Seq<char>, Seq<Seq<char>>)>,
    dept: Seq<char>,
    person: Seq<char>,
) -> Seq<(Seq<char>, Seq<Seq<char>>)> {
    let i = find_dept(st, dept);
    if i < 0 {
        st.push((dept, seq![person]))
    } else if find_member(st[i].1, person) >= 0 {
        st
    } else {
        st.update(i, (st[i].0, st[i].1.push(person)))
    }
}

/// Removes a person from a department if both exist; a department left
/// empty disappears from the table.
pub open spec fn remove_person(
    st: Seq<(Seq<char>, Seq<Seq<char>>)>,
    dept: Seq<char>,
    person: Seq<char>,
) -> Seq<(Seq<char>, Seq<Seq<char>>)> {
    let i = find_dept(st, dept);
    if i < 0 {
        st
    } else {
        let j = find_member(st[i].1, person);
        let members = if j < 0 {
            st[i].1
        } else {
            st[i].1.remove(j)
        };
        if members.len() == 0 {
            st.remove(i)
        } else {
            st.update(i, (st[i].0, members))
        }
    }
}

/// Applies one command to the table.  Commands that do not match any of
/// the three forms, and removals or moves from unknown departments, leave
/// the table unchanged.
pub open spec fn roster_step(st: Seq<(Seq<char>, Seq<Seq<char>>)>, cmd: Seq<Seq<char>>) -> Seq<
    (Seq<char>, Seq<Seq<char>>),
> {
    if cmd.len() == 4 && cmd[0] == "Add"@ && cmd[2] == "to"@ {
        add_person(st, cmd[3], cmd[1])
    } else if cmd.len() == 4 && cmd[0] == "Remove"@ && cmd[2] == "from"@ {
        remove_person(st, cmd[3], cmd[1])
    } else if cmd.len() == 6 && cmd[0] == "Move"@ && cmd[2] == "from"@ && cmd[4] == "to"@ {
        if find_dept(st, cmd[3]) >= 0 {
            add_person(remove_person(st, cmd[3], cmd[1]), cmd[5], cmd[1])
        } else {
            st
        }
    } else {
        st
    }
}

/// The table after applying a whole command sequence to an empty table.
pub open spec fn roster_run(cmds: Seq<Seq<Seq<char>>>) -> Seq<(Seq<char>, Seq<Seq<char>>)>
    decreases cmds.len(),
{
    if cmds.len() == 0 {
        Seq::<(Seq<char>, Seq<Seq<char>>)>::empty()
    } else {
        roster_step(roster_run(cmds.drop_last()), cmds.last())
    }
}

/// Splits a string on ASCII whitespace into its non-empty words.
fn split_words(s: &str) -> (r: Vec<String>)
    ensures
        r.deep_view() == words_of(s@),
{
    let cs = chars_of(s);
    let mut ret: Vec<String> = Vec::new();
    let mut current: Vec<char> = Vec::new();
    let mut i: usize = 0;
    proof {
        assert(cs@.subrange(0, 0) =~= Seq::<char>::empty());
        assert(ret.deep_view() =~= words_run(cs@.subrange(0, 0)).1);
    }
    while i < cs.len()
        invariant
            cs@ == s@,
            i <= cs@.len(),
            current@ == words_run(cs@.subrange(0, i as int)).0,
            ret.deep_view() == words_run(cs@.subrange(0, i as int)).1,
        decreases cs@.len() - i,
    {
        let c = cs[i];
        let ghost pre_ret = ret.deep_view();
        if c == ' ' || c == '\t' || c == '\n' || c == '\r' || c == '\u{c}' {
            if current.len() > 0 {
                let word = string_of(&current);
                ret.push(word);
                current = Vec::new();
                proof {
                    assert(ret.deep_view() =~= pre_ret.push(word@));
                }
            }
        } else {
            current.push(c);
        }
        i = i + 1;
        proof {
            assert(cs@.subrange(0, i as int).drop_last() =~= cs@.subrange(0, i - 1));
            assert(cs@.subrange(0, i as int).last() == cs@[i - 1]);
            assert(current@ =~= words_run(cs@.subrange(0, i as int)).0);
            assert(ret.deep_view() =~= words_run(cs@.subrange(0, i as int)).1);
        }
    }
    proof {
        assert(cs@.subrange(0, cs@.len() as int) =~= cs@);
    }
    if current.len() > 0 {
        let ghost pre_ret = ret.deep_view();
        let word = string_of(&current);
        ret.push(word);
        proof {
            assert(ret.deep_view() =~= pre_ret.push(word@));
        }
    }
    ret
}

/// A position whose department name matches, with no match before it, is
/// the found index.
proof fn lemma_find_dept_at(st: Seq<(Seq<char>, Seq<Seq<char>>)>, name: Seq<char>, k: int)
    requires
        0 <= k < st.len(),
        st[k].0 == name,
        forall|j: int| 0 <= j < k ==> (#[trigger] st[j]).0 != name,
    ensures
        find_dept(st, name) == k,
    decreases k,
{
    if k > 0 {
        lemma_find_dept_at(st.drop_first(), name, k - 1);
    }
}

/// A table without the department finds a negative index.
proof fn lemma_find_dept_none(st: Seq<(Seq<char>, Seq<Seq<char>>)>, name: Seq<char>)
    requires
        forall|j: int| 0 <= j < st.len() ==> (#[trigger] st[j]).0 != name,
    ensures
        find_dept(st, name) < 0,
    decreases st.len(),
{
    if st.len() > 0 {
        lemma_find_dept_none(st.drop_first(), name);
    }
}

/// A position whose member matches, with no match before it, is the found
/// index.
proof fn lemma_find_member_at(members: Seq<Seq<char>>, person: Seq<char>, k: int)
    requires
        0 <= k < members.len(),
        members[k] == person,
        forall|j: int| 0 <= j < k ==> #[trigger] members[j] != person,
    ensures
        find_member(members, person) == k,
    decreases k,
{
    if k > 0 {
        lemma_find_member_at(members.drop_first(), person, k - 1);
    }
}

/// A list without the person finds a negative index.
proof fn lemma_find_member_none(members: Seq<Seq<char>>, person: Seq<char>)
    requires
        forall|j: int| 0 <= j < members.len() ==> #[trigger] members[j] != person,
    ensures
        find_member(members, person) < 0,
    decreases members.len(),
{
    if members.len() > 0 {
        lemma_find_member_none(members.drop_first(), person);
    }
}

/// Finds the department with the given name in the table.
fn dept_position(table: &Vec<(String, Vec<String>)>, name: &String) -> (r: Option<usize>)
    ensures
        r matches Some(i) ==> i < table@.len() && find_dept(table.deep_view(), name@) == i,
        r is None ==> find_dept(table.deep_view(), name@) < 0,
{
    let mut k: usize = 0;
    while k < table.len()
        invariant
            k <= table@.len(),
            forall|j: int| 0 <= j < k ==> (#[trigger] table.deep_view()[j]).0 != name@,
        decreases table@.len() - k,
    {
        if table[k].0 == *name {
            proof {
                assert(table.deep_view()[k as int].0 == name@);
                lemma_find_dept_at(table.deep_view(), name@, k as int);
            }
            return Some(k);
        }
        proof {
            assert(table.deep_view()[k as int].0 == table@[k as int].0@);
        }
        k = k + 1;
    }
    proof {
        lemma_find_dept_none(table.deep_view(), name@);
    }
    None
}

/// Finds the first occurrence of the person in the member list.
fn member_position(members: &Vec<String>, person: &String) -> (r: Option<usize>)
    ensures
        r matches Some(i) ==> i < members@.len() && find_member(members.deep_view(), person@) == i,
        r is None ==> find_member(members.deep_view(), person@) < 0,
{
    let mut k: usize = 0;
    while k < members.len()
        invariant
            k <= members@.len(),
            forall|j: int| 0 <= j < k ==> #[trigger] members.deep_view()[j] != person@,
        decreases members@.len() - k,
    {
        if members[k] == *person {
            proof {
                assert(members.deep_view()[k as int] == person@);
                lemma_find_member_at(members.deep_view(), person@, k as int);
            }
            return Some(k);
        }
        proof {
            assert(members.deep_view()[k as int] == members@[k as int]@);
        }
        k = k + 1;
    }
    proof {
        lemma_find_member_none(members.deep_view(), person@);
    }
    None
}

/// Adds the person to the department in the table.
fn table_add(table: &mut Vec<(String, Vec<String>)>, dept: &String, person: &String)
    ensures
        final(table).deep_view() == add_person(old(table).deep_view(), dept@, person@),
{
    let ghost pre = table.deep_view();
    match dept_position(table, dept) {
        None => {
            let mut members: Vec<String> = Vec::new();
            members.push(person.clone());
            table.push((dept.clone(), members));
            proof {
                assert(members.deep_view() =~= seq![person@]);
                assert(table.deep_view() =~= pre.push((dept@, seq![person@])));
            }
        },
        Some(i) => {
            let entry = table.remove(i);
            let name = entry.0;
            let mut members = entry.1;
            match member_position(&members, person) {
                Some(_) => {
                    table.insert(i, (name, members));
                    proof {
                        assert(table.deep_view() =~= pre);
                    }
                },
                None => {
                    let ghost pre_members = members.deep_view();
                    members.push(person.clone());
                    proof {
                        assert(members.deep_view() =~= pre_members.push(person@));
                    }
                    table.insert(i, (name, members));
                    proof {
                        assert(table.deep_view() =~= pre.update(
                            i as int,
                            (pre[i as int].0, pre[i as int].1.push(person@)),
                        ));
                    }
                },
            }
        },
    }
}

/// Removes the person from the department in the table, dropping a
/// department left empty.
fn table_remove(table: &mut Vec<(String, Vec<String>)>, dept: &String, person: &String)
    ensures
        final(table).deep_view() == remove_person(old(table).deep_view(), dept@, person@),
{
    let ghost pre = table.deep_view();
    match dept_position(table, dept) {
        None => {},
        Some(i) => {
            let entry = table.remove(i);
            let name = entry.0;
            let mut members = entry.1;
            let ghost pre_members = members.deep_view();
            match member_position(&members, person) {
                Some(j) => {
                    let _ = members.remove(j);
                    proof {
                        assert(members.deep_view() =~= pre_members.remove(j as int));
                    }
                },
                None => {},
            }
            if members.len() == 0 {
                proof {
                    assert(table.deep_view() =~= pre.remove(i as int));
                }
            } else {
                table.insert(i, (name, members));
                proof {
                    assert(table.deep_view() =~= pre.update(
                        i as int,
                        (pre[i as int].0, members.deep_view()),
                    ));
                }
            }
        },
    }
}

/// Converts HR commands to the organization table: a list of departments,
/// each with its members, in order of first appearance.  Commands are
/// "Add {person} to {department}", "Remove {person} from {department}"
/// and "Move {person} from {department} to {department}"; commands that
/// cannot be executed are ignored.
pub fn organize(commands: Vec<String>) -> (r: Vec<(String, Vec<String>)>)
    ensures
        r.deep_view() == roster_run(Seq::new(commands@.len(), |i: int| words_of(commands@[i]@))),
{
    let ghost cmds = Seq::new(commands@.len(), |i: int| words_of(commands@[i]@));
    let mut table: Vec<(String, Vec<String>)> = Vec::new();
    let mut i: usize = 0;
    proof {
        assert(cmds.subrange(0, 0) =~= Seq::<Seq<Seq<char>>>::empty());
        assert(table.deep_view() =~= roster_run(cmds.subrange(0, 0)));
    }
    while i < commands.len()
        invariant
            cmds == Seq::new(commands@.len(), |i: int| words_of(commands@[i]@)),
            i <= commands@.len(),
            table.deep_view() == roster_run(cmds.subrange(0, i as int)),
        decreases commands@.len() - i,
    {
        let words = split_words(commands[i].as_str());
        let ghost pre_table = table.deep_view();
        let ghost cmd = words.deep_view();
        proof {
            assert(cmd == cmds[i as int]);
            reveal_strlit("Add");
            reveal_strlit("Remove");
            reveal_strlit("Move");
            reveal_strlit("to");
            reveal_strlit("from");
        }
        let add_kw: String = "Add".to_owned();
        let remove_kw: String = "Remove".to_owned();
        let move_kw: String = "Move".to_owned();
        let to_kw: String = "to".to_owned();
        let from_kw: String = "from".to_owned();
        if words.len() == 4 {
            if words[0] == add_kw && words[2] == to_kw {
                table_add(&mut table, &words[3], &words[1]);
            } else if words[0] == remove_kw && words[2] == from_kw {
                table_remove(&mut table, &words[3], &words[1]);
            }
        } else if words.len() == 6 {
            if words[0] == move_kw && words[2] == from_kw && words[4] == to_kw {
                match dept_position(&table, &words[3]) {
                    Some(_) => {
                        table_remove(&mut table, &words[3], &words[1]);
                        table_add(&mut table, &words[5], &words[1]);
                    },
                    None => {},
                }
            }
        }
        i = i + 1;
        proof {
            assert(cmds.subrange(0, i as int).drop_last() =~= cmds.subrange(0, i - 1));
            assert(cmds.subrange(0, i as int).last() == cmds[i - 1]);
            assert(table.deep_view() =~= roster_step(pre_table, cmd));
        }
    }
    proof {
        assert(cmds.subrange(0, cmds.len() as int) =~= cmds);
    }
    table
}

} // verus!
