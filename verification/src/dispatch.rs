//! The command dispatcher: maps one invocation's command to a store
//! operation, a decision whether to persist, and the lines to print.
//! Each invocation is a single stateless request over the loaded store.

use vstd::prelude::*;
use crate::store::Store;
use crate::text::lex_lt;

verus! {

/// One invocation's command, with the plain values it needs.
pub enum Command {
    /// Bookmark the working directory `cwd` under its final path segment.
    Add { cwd: String },
    /// Delete the bookmark under `name`.  A miss prints nothing and
    /// does not rewrite the persisted file.
    Remove { name: String },
    /// List all bookmarks.
    List,
    /// Look `name` up and report its path.
    Jump { name: String },
}

/// What an invocation decided: the store to carry forward, whether it
/// must be persisted, and the lines to print, in order.
pub struct Outcome {
    pub store: Store,
    pub save: bool,
    pub output: Vec<String>,
}

/// The final `/`-separated segment of a path: what follows the last
/// slash, or the whole path when it has none.
pub open spec fn base_name(p: Seq<char>) -> Seq<char>
    decreases p.len(),
{
    if p.len() == 0 {
        p
    } else if p.last() == '/' {
        Seq::empty()
    } else {
        base_name(p.drop_last()) + seq![p.last()]
    }
}

/// The characters a sequence of strings denotes, line by line.
pub open spec fn lines_view(v: Seq<String>) -> Seq<Seq<char>> {
    v.map_values(|s: String| s@)
}

/// The `name -> path` report line.
pub open spec fn pair_line(k: Seq<char>, v: Seq<char>) -> Seq<char> {
    k + seq![' ', '-', '>', ' '] + v
}

/// The report line of `add`: the pair, each side quoted.
pub open spec fn add_line(k: Seq<char>, v: Seq<char>) -> Seq<char> {
    seq!['"'] + k + seq!['"', ' ', '-', '>', ' ', '"'] + v + seq!['"']
}

/// The report line of a successful `rm`.
pub open spec fn remove_line(k: Seq<char>) -> Seq<char> {
    seq!['R', 'e', 'm', 'o', 'v', 'e', ' '] + k
}

/// The report line of a failed lookup.
pub open spec fn not_found_line() -> Seq<char> {
    seq!['V', 'a', 'l', 'u', 'e', ' ', 'n', 'o', 't', ' ', 'f', 'o', 'u', 'n', 'd', '!']
}

/// The report lines of `ls`, one pair per line in listing order.
pub open spec fn list_lines(ps: Seq<(Seq<char>, Seq<char>)>) -> Seq<Seq<char>> {
    ps.map_values(|p: (Seq<char>, Seq<char>)| pair_line(p.0, p.1))
}

/// The final path segment of `p`, as `base_name` describes.
pub fn base_name_of(p: &str) -> (r: String)
    ensures
        r@ == base_name(p@),
{
    let len = p.unicode_len();
    let mut cut: usize = len;
    loop
        invariant
            cut <= len,
            len == p@.len(),
            forall|j: int| cut <= j < len ==> p@[j] != '/',
        ensures
            cut <= len,
            forall|j: int| cut <= j < len ==> p@[j] != '/',
            cut > 0 ==> p@[cut - 1] == '/',
        decreases cut,
    {
        if cut == 0 {
            break;
        }
        if p.get_char(cut - 1) == '/' {
            break;
        }
        cut = cut - 1;
    }
    proof {
        lemma_base_name_suffix(p@, cut as int);
    }
    let tail = p.substring_char(cut, len);
    proof {
        assert(p@.subrange(cut as int, len as int) =~= p@.skip(cut as int));
    }
    tail.to_owned()
}

/// Where `cut` stands just after the last slash (or at the start of a
/// slashless path), the suffix from `cut` is the base name.
proof fn lemma_base_name_suffix(p: Seq<char>, cut: int)
    requires
        0 <= cut <= p.len(),
        cut > 0 ==> p[cut - 1] == '/',
        forall|j: int| cut <= j < p.len() ==> p[j] != '/',
    ensures
        base_name(p) == p.skip(cut),
    decreases p.len(),
{
    if p.len() == 0 {
        assert(p.skip(0) =~= p);
    } else if cut == p.len() {
        assert(p.last() == '/');
        assert(p.skip(cut) =~= Seq::<char>::empty());
    } else {
        assert(p.last() != '/');
        let d = p.drop_last();
        assert(forall|j: int| cut <= j < d.len() ==> #[trigger] d[j] == p[j]);
        lemma_base_name_suffix(d, cut);
        assert(p.skip(cut) =~= d.skip(cut) + seq![p.last()]);
    }
}

/// Appends the characters of `other` to `line`.
fn append_str(line: &mut String, other: &str)
    ensures
        final(line)@ == old(line)@ + other@,
{
    line.append(other);
}

/// The `name -> path` report line for one pair.
fn pair_line_of(k: &str, v: &str) -> (r: String)
    ensures
        r@ == pair_line(k@, v@),
{
    let mut line = String::new();
    append_str(&mut line, k);
    append_str(&mut line, " -> ");
    append_str(&mut line, v);
    proof {
        reveal_strlit(" -> ");
        assert(" -> "@ =~= seq![' ', '-', '>', ' ']);
        assert(line@ =~= pair_line(k@, v@));
    }
    line
}

/// Performs `cmd` against `st`: the resulting store, whether it must be
/// persisted, and the report lines, exactly as each command describes.
pub fn dispatch(st: Store, cmd: Command) -> (out: Outcome)
    requires
        st.wf(),
    ensures
        out.store.wf(),
        match cmd {
            Command::Add { cwd } => out.store@ == st@.insert(base_name(cwd@), cwd@)
                && out.save
                && lines_view(out.output@) == seq![add_line(base_name(cwd@), cwd@)],
            Command::Remove { name } => out.store@ == st@.remove(name@)
                && out.save == st@.dom().contains(name@)
                && (st@.dom().contains(name@) ==> lines_view(out.output@) == seq![remove_line(name@)])
                && (!st@.dom().contains(name@) ==> out.store == st && out.output@.len() == 0),
            Command::List => out.store == st && !out.save
                && lines_view(out.output@) == list_lines(st.entries_view()),
            Command::Jump { name } => out.store == st && !out.save
                && (st@.dom().contains(name@) ==> lines_view(out.output@) == seq![pair_line(name@, st@[name@])])
                && (!st@.dom().contains(name@) ==> lines_view(out.output@) == seq![not_found_line()]),
        },
{
    let mut st = st;
    match cmd {
        Command::Add { cwd } => {
            let name = base_name_of(cwd.as_str());
            let mut line = String::new();
            push_quote(&mut line);
            append_str(&mut line, name.as_str());
            append_str(&mut line, "\" -> \"");
            append_str(&mut line, cwd.as_str());
            push_quote(&mut line);
            proof {
                reveal_strlit("\" -> \"");
                assert("\" -> \""@ =~= seq!['"', ' ', '-', '>', ' ', '"']);
                assert(line@ =~= add_line(name@, cwd@));
            }
            let ghost nv = name@;
            let ghost cv = cwd@;
            st.insert(name, cwd);
            let output = make_one_line(line);
            proof {
                assert(lines_view(output@) =~= seq![add_line(nv, cv)]);
            }
            Outcome { store: st, save: true, output }
        },
        Command::Remove { name } => {
            let found = st.remove(name.as_str());
            if found {
                let mut line = String::new();
                append_str(&mut line, "Remove ");
                append_str(&mut line, name.as_str());
                proof {
                    reveal_strlit("Remove ");
                    assert("Remove "@ =~= seq!['R', 'e', 'm', 'o', 'v', 'e', ' ']);
                    assert(line@ =~= remove_line(name@));
                }
                let output = make_one_line(line);
                proof {
                    assert(lines_view(output@) =~= seq![remove_line(name@)]);
                }
                Outcome { store: st, save: true, output }
            } else {
                let output: Vec<String> = Vec::new();
                Outcome { store: st, save: false, output }
            }
        },
        Command::List => {
            let n = st.len();
            let mut output: Vec<String> = Vec::new();
            proof {
                assert(lines_view(output@) =~= list_lines(st.entries_view().take(0)));
            }
            let mut i: usize = 0;
            while i < n
                invariant
                    i <= n,
                    n == st.entries_view().len(),
                    st.wf(),
                    lines_view(output@) =~= list_lines(st.entries_view().take(i as int)),
                decreases n - i,
            {
                let (k, v) = st.entry_at(i);
                let line = pair_line_of(k.as_str(), v.as_str());
                let ghost out0 = output@;
                output.push(line);
                proof {
                    assert(lines_view(out0).len() == out0.len());
                    assert(out0.len() == i as int);
                    assert(output@ == out0.push(line));
                    assert forall|j: int| 0 <= j < i + 1 implies #[trigger] lines_view(output@)[j]
                        == list_lines(st.entries_view().take(i + 1))[j] by {
                        if j < i {
                            assert(output@[j] == out0.push(line)[j]);
                            assert(output@[j] == out0[j]);
                            assert(lines_view(out0)[j] == list_lines(st.entries_view().take(i as int))[j]);
                        } else {
                            assert(output@[j] == line);
                        }
                    }
                    assert(lines_view(output@) =~= list_lines(st.entries_view().take(i + 1)));
                }
                i = i + 1;
            }
            proof {
                assert(st.entries_view().take(n as int) =~= st.entries_view());
            }
            Outcome { store: st, save: false, output }
        },
        Command::Jump { name } => {
            match st.lookup(name.as_str()) {
                Some(path) => {
                    let line = pair_line_of(name.as_str(), path.as_str());
                    let output = make_one_line(line);
                    proof {
                        assert(lines_view(output@) =~= seq![pair_line(name@, st@[name@])]);
                    }
                    Outcome { store: st, save: false, output }
                },
                None => {
                    let mut line = String::new();
                    append_str(&mut line, "Value not found!");
                    proof {
                        reveal_strlit("Value not found!");
                        assert("Value not found!"@ =~= not_found_line());
                        assert(line@ =~= not_found_line());
                    }
                    let output = make_one_line(line);
                    proof {
                        assert(lines_view(output@) =~= seq![not_found_line()]);
                    }
                    Outcome { store: st, save: false, output }
                },
            }
        },
    }
}

/// Appends one `"` to `line`.
fn push_quote(line: &mut String)
    ensures
        final(line)@ == old(line)@ + seq!['"'],
{
    crate::text::push_char(line, '"');
    proof {
        assert(old(line)@.push('"') =~= old(line)@ + seq!['"']);
    }
}

/// The one-line output holding exactly `line`.
fn make_one_line(line: String) -> (r: Vec<String>)
    ensures
        r@.len() == 1,
        r@[0] == line,
{
    let mut r: Vec<String> = Vec::new();
    r.push(line);
    r
}

} // verus!
