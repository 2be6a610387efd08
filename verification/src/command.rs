use vstd::prelude::*;

use crate::chars::{split_words, views, words};
use crate::json::same_text;
use crate::number::{
    bool_of, i32_of, int_text, integer_of, is_digit, parse_bool, parse_i32, unsigned_part,
};

verus! {

/// A command typed at the prompt.
pub enum Command {
    /// `adduser <name>`
    AddUser(String),
    /// `adddays <name> <days>`; days that do not read as an `i32` count as `0`.
    AddDays(String, i32),
    /// `changestatus <name> <true/false>`; anything but `true` counts as `false`.
    ChangeStatus(String, bool),
    /// `help`
    Help,
    /// `sync`
    Sync,
    /// `quit` or `exit`
    Quit,
    /// Anything else, a blank line included.
    Unknown,
}

/// Whether the words of `line` are `changestatus`, a name and one more word.
pub open spec fn is_change_status_line(line: Seq<char>) -> bool {
    words(line).len() == 3 && words(line)[0] == seq![
        'c',
        'h',
        'a',
        'n',
        'g',
        'e',
        's',
        't',
        'a',
        't',
        'u',
        's',
    ]
}

/// Whether `c` is the command the line `line` asks for: its words are the command's name and
/// then its arguments, separated by white space.
pub open spec fn is_command_for(line: Seq<char>, c: Command) -> bool {
    let w = words(line);
    if w.len() == 2 && w[0] == seq!['a', 'd', 'd', 'u', 's', 'e', 'r'] {
        c matches Command::AddUser(name) && name@ == w[1]
    } else if w.len() == 3 && w[0] == seq!['a', 'd', 'd', 'd', 'a', 'y', 's'] {
        c matches Command::AddDays(name, days) && name@ == w[1] && days == match i32_of(w[2]) {
            Some(d) => d,
            None => 0,
        }
    } else if w.len() == 3 && w[0] == seq![
        'c',
        'h',
        'a',
        'n',
        'g',
        'e',
        's',
        't',
        'a',
        't',
        'u',
        's',
    ] {
        c matches Command::ChangeStatus(name, status) && name@ == w[1] && status == match bool_of(
            w[2],
        ) {
            Some(b) => b,
            None => false,
        }
    } else if w == seq![seq!['h', 'e', 'l', 'p']] {
        c is Help
    } else if w == seq![seq!['s', 'y', 'n', 'c']] {
        c is Sync
    } else if w == seq![seq!['q', 'u', 'i', 't']] || w == seq![seq!['e', 'x', 'i', 't']] {
        c is Quit
    } else {
        c is Unknown
    }
}

/// Whether the one-word line `w` is exactly the word `lit`.
fn is_only(w: &Vec<String>, lit: &str) -> (res: bool)
    ensures
        res == (views(w@) == seq![lit@]),
{
    if w.len() != 1 {
        assert(views(w@).len() != 1);
        return false;
    }
    let r = same_text(w[0].as_str(), lit);
    assert(views(w@)[0] == w@[0]@);
    if r {
        assert(views(w@) =~= seq![lit@]);
    } else {
        assert(views(w@)[0] != seq![lit@][0]);
    }
    r
}

/// The command the line `line` asks for.
pub fn parse_command(line: &str) -> (res: Command)
    ensures
        is_command_for(line@, res),
        is_change_status_line(line@) ==> (res matches Command::ChangeStatus(name, status)
            && name@ == words(line@)[1] && (status <==> words(line@)[2] == seq![
            't',
            'r',
            'u',
            'e',
        ])),
{
    let w = split_words(line);
    let ghost ws = words(line@);
    assert(views(w@) == ws);
    assert(w.len() == ws.len());
    assert(forall|i: int| 0 <= i < w.len() ==> w@[i]@ == ws[i]);
    proof {
        reveal_strlit("adduser");
        reveal_strlit("adddays");
        reveal_strlit("changestatus");
        reveal_strlit("help");
        reveal_strlit("sync");
        reveal_strlit("quit");
        reveal_strlit("exit");
        assert("adduser"@ =~= seq!['a', 'd', 'd', 'u', 's', 'e', 'r']);
        assert("adddays"@ =~= seq!['a', 'd', 'd', 'd', 'a', 'y', 's']);
        assert("changestatus"@ =~= seq![
            'c',
            'h',
            'a',
            'n',
            'g',
            'e',
            's',
            't',
            'a',
            't',
            'u',
            's',
        ]);
        assert("help"@ =~= seq!['h', 'e', 'l', 'p']);
        assert("sync"@ =~= seq!['s', 'y', 'n', 'c']);
        assert("quit"@ =~= seq!['q', 'u', 'i', 't']);
        assert("exit"@ =~= seq!['e', 'x', 'i', 't']);
    }
    if w.len() == 2 && same_text(w[0].as_str(), "adduser") {
        return Command::AddUser(w[1].clone());
    }
    if w.len() == 3 && same_text(w[0].as_str(), "adddays") {
        let days = match parse_i32(w[2].as_str()) {
            Some(d) => d,
            None => 0,
        };
        return Command::AddDays(w[1].clone(), days);
    }
    if w.len() == 3 && same_text(w[0].as_str(), "changestatus") {
        let status = match parse_bool(w[2].as_str()) {
            Some(b) => b,
            None => false,
        };
        return Command::ChangeStatus(w[1].clone(), status);
    }
    if is_only(&w, "help") {
        return Command::Help;
    }
    if is_only(&w, "sync") {
        return Command::Sync;
    }
    if is_only(&w, "quit") || is_only(&w, "exit") {
        return Command::Quit;
    }
    Command::Unknown
}

/// A status change enables the user exactly when its last word is `true`: `false`, and any
/// other word, disable it; the name is the second word as written.
pub proof fn lemma_status_is_true_only_for_true(line: Seq<char>, c: Command)
    requires
        is_command_for(line, c),
        is_change_status_line(line),
    ensures
        c matches Command::ChangeStatus(name, status) && name@ == words(line)[1] && (status
            <==> words(line)[2] == seq!['t', 'r', 'u', 'e']),
{
}

/// Whether the words of `line` are `adddays`, a name and one more word.
pub open spec fn is_add_days_line(line: Seq<char>) -> bool {
    words(line).len() == 3 && words(line)[0] == seq!['a', 'd', 'd', 'd', 'a', 'y', 's']
}

/// Days added are the days written: a count written as an integer is that count, and a last
/// word without any digit adds none; the name is the second word as written.
pub proof fn lemma_days_are_read_as_written(line: Seq<char>, c: Command, n: i32)
    requires
        is_command_for(line, c),
        is_add_days_line(line),
    ensures
        c matches Command::AddDays(name, _) && name@ == words(line)[1],
        words(line)[2] == int_text(n as int) ==> (c matches Command::AddDays(_, days) && days
            == n),
        (forall|i: int| 0 <= i < words(line)[2].len() ==> !is_digit(#[trigger] words(line)[2][i]))
            ==> (c matches Command::AddDays(_, days) && days == 0),
{
    let w = words(line)[2];
    if w == int_text(n as int) {
        crate::number::lemma_written_integer_reads_back(n as i64);
        assert(integer_of(w) == Some(n as int));
    }
    if forall|i: int| 0 <= i < w.len() ==> !is_digit(#[trigger] w[i]) {
        let body = unsigned_part(w);
        if body.len() > 0 {
            assert(body[0] == w[0] || body[0] == w[1]);
            assert(!is_digit(body[0]));
        }
        assert(integer_of(w) is None);
    }
}

} // verus!
