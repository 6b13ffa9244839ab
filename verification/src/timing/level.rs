//! How severe an event is.

use vstd::prelude::*;

verus! {

/// The severity of an event.
#[derive(Debug, Clone, Copy, PartialEq, Eq, Structural)]
pub enum Level {
    Error,
    Warn,
    Info,
    Debug,
    Trace,
}

/// The coloured label of a level.
pub open spec fn level_label(level: Level) -> Seq<char> {
    match level {
        Level::Error => "\x1b[31mERROR\x1b[0m"@,
        Level::Warn => "\x1b[33mWARN\x1b[0m"@,
        Level::Info => "\x1b[32mINFO\x1b[0m"@,
        Level::Debug => "\x1b[34mDEBUG\x1b[0m"@,
        Level::Trace => "\x1b[35mTRACE\x1b[0m"@,
    }
}

/// The coloured label of a level.
pub fn level_prefix(level: &Level) -> (r: &'static str)
    ensures
        r@ == level_label(*level),
{
    match *level {
        Level::Error => "\x1b[31mERROR\x1b[0m",
        Level::Warn => "\x1b[33mWARN\x1b[0m",
        Level::Info => "\x1b[32mINFO\x1b[0m",
        Level::Debug => "\x1b[34mDEBUG\x1b[0m",
        Level::Trace => "\x1b[35mTRACE\x1b[0m",
    }
}

/// Labels end in what sets the colour back, and no two levels share a colour or a label.
pub proof fn labels_are_told_apart(a: Level, b: Level)
    ensures
        level_label(a) == level_label(b) ==> a == b,
        level_label(a)[3] == level_label(b)[3] ==> a == b,
        level_label(a).take(3) == seq!['\x1b', '[', '3'],
        level_label(a)[4] == 'm',
        level_label(a).skip(level_label(a).len() - 4) == seq!['\x1b', '[', '0', 'm'],
        level_label(a)[3] == match a {
            Level::Error => '1',
            Level::Warn => '3',
            Level::Info => '2',
            Level::Debug => '4',
            Level::Trace => '5',
        },
        level_label(a).subrange(5, level_label(a).len() - 4) == match a {
            Level::Error => seq!['E', 'R', 'R', 'O', 'R'],
            Level::Warn => seq!['W', 'A', 'R', 'N'],
            Level::Info => seq!['I', 'N', 'F', 'O'],
            Level::Debug => seq!['D', 'E', 'B', 'U', 'G'],
            Level::Trace => seq!['T', 'R', 'A', 'C', 'E'],
        },
{
    reveal_strlit("\x1b[31mERROR\x1b[0m");
    reveal_strlit("\x1b[33mWARN\x1b[0m");
    reveal_strlit("\x1b[32mINFO\x1b[0m");
    reveal_strlit("\x1b[34mDEBUG\x1b[0m");
    reveal_strlit("\x1b[35mTRACE\x1b[0m");
    let l = level_label(a);
    assert(l.take(3) =~= seq!['\x1b', '[', '3']);
    assert(l.skip(l.len() - 4) =~= seq!['\x1b', '[', '0', 'm']);
    let name = l.subrange(5, l.len() - 4);
    match a {
        Level::Error => {
            assert(name =~= seq!['E', 'R', 'R', 'O', 'R']);
        },
        Level::Warn => {
            assert(name =~= seq!['W', 'A', 'R', 'N']);
        },
        Level::Info => {
            assert(name =~= seq!['I', 'N', 'F', 'O']);
        },
        Level::Debug => {
            assert(name =~= seq!['D', 'E', 'B', 'U', 'G']);
        },
        Level::Trace => {
            assert(name =~= seq!['T', 'R', 'A', 'C', 'E']);
        },
    }
}

} // verus!
