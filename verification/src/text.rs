//! Text operations on command lines and paths.

use vstd::prelude::*;

verus! {

/// The marker that an elevated command line starts with.
pub open spec fn sudo_marker() -> Seq<char> {
    seq!['s', 'u', 'd', 'o', ' ']
}

/// The token in a command template that the package names replace.
pub open spec fn placeholder() -> Seq<char> {
    seq!['#', ':', '?']
}

/// The suffix by which a file name is recognised as a template.
pub open spec fn template_suffix() -> Seq<char> {
    seq!['.', 't', 'e', 'r', 'a']
}

/// The command line that runs `command`, elevated when `sudo` is set.
pub open spec fn elevated(command: Seq<char>, sudo: bool) -> Seq<char> {
    if sudo {
        sudo_marker() + command
    } else {
        command
    }
}

/// The items of `items` in their order, with `sep` between neighbours.
pub open spec fn joined(items: Seq<Seq<char>>, sep: Seq<char>) -> Seq<char>
    decreases items.len(),
{
    if items.len() == 0 {
        Seq::empty()
    } else if items.len() == 1 {
        items[0]
    } else {
        joined(items.drop_last(), sep) + sep + items.last()
    }
}

/// `command` with every occurrence of the placeholder replaced by `arg`,
/// the occurrences taken from left to right.
pub open spec fn substituted(command: Seq<char>, arg: Seq<char>) -> Seq<char>
    decreases command.len(),
{
    if command.len() == 0 {
        command
    } else if placeholder().is_prefix_of(command) {
        arg + substituted(command.skip(3), arg)
    } else {
        seq![command[0]] + substituted(command.skip(1), arg)
    }
}

/// `path` without the separators and the `.` components that it ends in.
pub open spec fn trimmed(path: Seq<char>) -> Seq<char>
    decreases path.len(),
{
    if path.len() > 0 && path.last() == '/' {
        trimmed(path.drop_last())
    } else if path.len() >= 2 && path.last() == '.' && path[path.len() - 2] == '/' {
        trimmed(path.drop_last())
    } else {
        path
    }
}

/// Whether the last component of `path` is a non-empty stem followed by the
/// template suffix. Separators and `.` components at the end of the path do
/// not count as its last component.
pub open spec fn is_template_path(path: Seq<char>) -> bool {
    let p = trimmed(path);
    &&& p.len() >= 6
    &&& p[p.len() - 6] != '/'
    &&& p.subrange(p.len() - 5, p.len() as int) == template_suffix()
}

/// Builds the command line that runs `command`, prefixed by the elevation
/// marker when `sudo` is set.
pub fn with_sudo(command: &str, sudo: bool) -> (line: String)
    ensures
        line@ == elevated(command@, sudo),
{
    if sudo {
        proof {
            reveal_strlit("sudo ");
            assert("sudo "@ =~= sudo_marker());
        }
        String::from_str("sudo ").concat(command)
    } else {
        String::from_str(command)
    }
}

/// Joins `items` in their order, with `sep` between neighbours.
pub fn join(items: &Vec<String>, sep: &str) -> (line: String)
    ensures
        line@ == joined(items.deep_view(), sep@),
{
    let ghost texts = items.deep_view();
    let mut line = String::new();
    let mut i: usize = 0;
    while i < items.len()
        invariant
            i <= items.len(),
            texts == items.deep_view(),
            line@ == joined(texts.take(i as int), sep@),
        decreases items.len() - i,
    {
        proof {
            assert(texts.take(i + 1).drop_last() =~= texts.take(i as int));
            assert(texts.take(i + 1).last() == items[i as int]@);
            if i == 0 {
                assert(joined(texts.take(0), sep@) =~= Seq::<char>::empty());
                assert(Seq::<char>::empty() + items[0]@ =~= items[0]@);
            }
        }
        if i > 0 {
            line.append(sep);
        }
        line.append(items[i].as_str());
        i += 1;
    }
    proof {
        assert(texts.take(items.len() as int) =~= texts);
    }
    line
}

/// Replaces every occurrence of the placeholder in `command` by `arg`.
pub fn substitute(command: &str, arg: &str) -> (line: String)
    ensures
        line@ == substituted(command@, arg@),
{
    let n = command.unicode_len();
    let mut line = String::new();
    let mut i: usize = 0;
    proof {
        assert(command@.skip(0) =~= command@);
        assert(line@ + substituted(command@, arg@) =~= substituted(command@, arg@));
    }
    while i < n
        invariant
            n == command@.len(),
            i <= n,
            line@ + substituted(command@.skip(i as int), arg@) == substituted(command@, arg@),
        decreases n - i,
    {
        let ghost rest = command@.skip(i as int);
        let found = n - i >= 3 && command.get_char(i) == '#' && command.get_char(i + 1) == ':'
            && command.get_char(i + 2) == '?';
        proof {
            if n - i >= 3 {
                assert(placeholder().is_prefix_of(rest) <==> rest.subrange(0, 3) =~= placeholder());
                assert(rest[0] == command@[i as int]);
                assert(rest[1] == command@[i + 1]);
                assert(rest[2] == command@[i + 2]);
                if found {
                    assert(rest.subrange(0, 3) =~= placeholder());
                } else {
                    assert(!(rest.subrange(0, 3) =~= placeholder())) by {
                        if rest.subrange(0, 3) == placeholder() {
                            assert(rest.subrange(0, 3)[0] == '#');
                            assert(rest.subrange(0, 3)[1] == ':');
                            assert(rest.subrange(0, 3)[2] == '?');
                        }
                    }
                }
            }
            assert(found == placeholder().is_prefix_of(rest));
        }
        if found {
            proof {
                assert(rest.skip(3) =~= command@.skip(i + 3));
                assert(line@ + arg@ + substituted(rest.skip(3), arg@) =~= line@ + (arg@
                    + substituted(rest.skip(3), arg@)));
            }
            line.append(arg);
            i += 3;
        } else {
            proof {
                assert(rest.skip(1) =~= command@.skip(i + 1));
                assert(command@.subrange(i as int, i + 1) =~= seq![rest[0]]);
                assert(line@ + seq![rest[0]] + substituted(rest.skip(1), arg@) =~= line@ + (
                seq![rest[0]] + substituted(rest.skip(1), arg@)));
            }
            line.append(command.substring_char(i, i + 1));
            i += 1;
        }
    }
    proof {
        assert(command@.skip(n as int) =~= Seq::<char>::empty());
        assert(line@ + Seq::<char>::empty() =~= line@);
    }
    line
}

/// Whether `path` names a template: its last component is a non-empty stem
/// followed by `.tera`.
pub fn is_template(path: &str) -> (template: bool)
    ensures
        template == is_template_path(path@),
{
    let n = path.unicode_len();
    let mut end: usize = n;
    proof {
        assert(path@.take(n as int) =~= path@);
    }
    loop
        invariant
            n == path@.len(),
            end <= n,
            trimmed(path@) == trimmed(path@.take(end as int)),
        ensures
            end <= n,
            trimmed(path@) == path@.take(end as int),
        decreases end,
    {
        let ghost here = path@.take(end as int);
        if end == 0 {
            break ;
        }
        let last = path.get_char(end - 1);
        proof {
            assert(here.last() == last);
            assert(here.drop_last() =~= path@.take(end - 1));
        }
        if last == '/' {
            end -= 1;
        } else if last == '.' && end >= 2 && path.get_char(end - 2) == '/' {
            proof {
                assert(here[here.len() - 2] == path@[end - 2]);
            }
            end -= 1;
        } else {
            proof {
                if end >= 2 {
                    assert(here[here.len() - 2] == path@[end - 2]);
                }
            }
            break ;
        }
    }
    let ghost p = path@.take(end as int);
    if end < 6 {
        return false;
    }
    proof {
        assert(p[p.len() - 6] == path@[end - 6]);
        let tail = p.subrange(p.len() - 5, p.len() as int);
        assert(tail.len() == 5);
        assert(tail[0] == path@[end - 5]);
        assert(tail[1] == path@[end - 4]);
        assert(tail[2] == path@[end - 3]);
        assert(tail[3] == path@[end - 2]);
        assert(tail[4] == path@[end - 1]);
        assert(template_suffix().len() == 5);
        assert(tail == template_suffix() <==> (tail[0] == '.' && tail[1] == 't' && tail[2] == 'e'
            && tail[3] == 'r' && tail[4] == 'a')) by {
            if tail[0] == '.' && tail[1] == 't' && tail[2] == 'e' && tail[3] == 'r' && tail[4]
                == 'a' {
                assert(tail =~= template_suffix());
            }
        }
    }
    path.get_char(end - 6) != '/' && path.get_char(end - 5) == '.' && path.get_char(end - 4) == 't'
        && path.get_char(end - 3) == 'e' && path.get_char(end - 2) == 'r' && path.get_char(end - 1)
        == 'a'
}

/// Copies a list of strings.
pub fn clone_texts(texts: &Vec<String>) -> (copy: Vec<String>)
    ensures
        copy@ == texts@,
{
    let mut copy: Vec<String> = Vec::new();
    let mut i: usize = 0;
    while i < texts.len()
        invariant
            i <= texts.len(),
            copy@ == texts@.take(i as int),
        decreases texts.len() - i,
    {
        copy.push(texts[i].clone());
        assert(copy@ =~= texts@.take(i + 1));
        i += 1;
    }
    assert(texts@.take(texts.len() as int) =~= texts@);
    copy
}

} // verus!
