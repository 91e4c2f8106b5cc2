use vstd::prelude::*;
use crate::text::{holds_at, contains_text, chars_of, word_at, lemma_holds_at_index};

verus! {

/// A character that may open or close a module name: `"` or `'`.
pub open spec fn is_quote(c: char) -> bool {
    c == '"' || c == '\''
}

/// The text of a static import: `import`, a binding, `from`, and the module
/// name between two quote characters.
pub open spec fn import_statement(binding: Seq<char>, open: char, name: Seq<char>, close: char) -> Seq<
    char,
> {
    "import "@ + binding + " from "@ + seq![open] + name + seq![close]
}

/// The text of a dynamic require: `require(`, the module name between two
/// quote characters, and `)`, with no blank anywhere.
pub open spec fn require_call(open: char, name: Seq<char>, close: char) -> Seq<char> {
    "require("@ + seq![open] + name + seq![close] + ")"@
}

/// A binding is what stands between `import` and `from`: at least one
/// character, all on one line.
pub open spec fn is_binding(binding: Seq<char>) -> bool {
    binding.len() > 0 && !binding.contains('\n')
}

/// `text` holds a static import of `name`. The two quote characters need not
/// be the same.
pub open spec fn has_import(text: Seq<char>, name: Seq<char>) -> bool {
    exists|binding: Seq<char>, open: char, close: char|
        is_binding(binding) && is_quote(open) && is_quote(close) && contains_text(
            text,
            #[trigger] import_statement(binding, open, name, close),
        )
}

/// `text` holds a dynamic require of `name`. The two quote characters need not
/// be the same.
pub open spec fn has_require(text: Seq<char>, name: Seq<char>) -> bool {
    exists|open: char, close: char|
        is_quote(open) && is_quote(close) && contains_text(
            text,
            #[trigger] require_call(open, name, close),
        )
}

/// `text` uses the package `name`: it imports it or requires it.
pub open spec fn is_usage(text: Seq<char>, name: Seq<char>) -> bool {
    has_import(text, name) || has_require(text, name)
}

/// At `at`, `text` reads a quote, `name`, and a quote.
pub open spec fn quoted_at(text: Seq<char>, at: int, name: Seq<char>) -> bool {
    &&& 0 <= at
    &&& at + name.len() + 2 <= text.len()
    &&& is_quote(text[at])
    &&& holds_at(text, at + 1, name)
    &&& is_quote(text[at + 1 + name.len()])
}

/// At `at`, `text` reads a require of `name`.
pub open spec fn require_at(text: Seq<char>, at: int, name: Seq<char>) -> bool {
    &&& holds_at(text, at, "require("@)
    &&& quoted_at(text, at + 8, name)
    &&& holds_at(text, at + 10 + name.len(), ")"@)
}

/// From `from` on, `text` reads `from` and the quoted `name`: the end of an
/// import statement.
pub open spec fn import_end_at(text: Seq<char>, from: int, name: Seq<char>) -> bool {
    &&& holds_at(text, from, " from "@)
    &&& quoted_at(text, from + 6, name)
}

/// An `import` that starts at `start` on the line of `from`, with at least
/// one character between the two.
pub open spec fn import_start_for(text: Seq<char>, start: int, from: int) -> bool {
    &&& holds_at(text, start, "import "@)
    &&& start + 7 < from <= text.len()
    &&& forall|k: int| start + 7 <= k < from ==> text[k] != '\n'
}

/// Some `import` reaches `from`.
pub open spec fn import_open_at(text: Seq<char>, from: int) -> bool {
    exists|start: int| import_start_for(text, start, from)
}

/// A require found by position is a require by its text.
pub proof fn lemma_require_at_gives_call(text: Seq<char>, at: int, name: Seq<char>)
    requires
        require_at(text, at, name),
    ensures
        has_require(text, name),
{
    reveal_strlit("require(");
    reveal_strlit(")");
    let open = text[at + 8];
    let close = text[at + 9 + name.len()];
    let call = require_call(open, name, close);
    assert(call.len() == name.len() + 11);
    assert forall|k: int| 0 <= k < call.len() implies text[at + k] == call[k] by {
        if k < 8 {
            lemma_holds_at_index(text, at, "require("@, k);
        } else if 9 <= k < 9 + name.len() {
            lemma_holds_at_index(text, at + 9, name, k - 9);
        } else if k == 10 + name.len() {
            lemma_holds_at_index(text, at + 10 + name.len(), ")"@, 0);
        }
    }
    assert(text.subrange(at, at + call.len()) =~= call);
    assert(holds_at(text, at, call));
    assert(contains_text(text, require_call(open, name, close)));
}

/// A require by its text is found at its position.
pub proof fn lemma_call_gives_require_at(
    text: Seq<char>,
    at: int,
    open: char,
    name: Seq<char>,
    close: char,
)
    requires
        is_quote(open),
        is_quote(close),
        holds_at(text, at, require_call(open, name, close)),
    ensures
        require_at(text, at, name),
{
    reveal_strlit("require(");
    reveal_strlit(")");
    let call = require_call(open, name, close);
    assert(call.len() == name.len() + 11);
    assert forall|k: int| 0 <= k < call.len() implies text[at + k] == call[k] by {
        lemma_holds_at_index(text, at, call, k);
    }
    assert(text.subrange(at, at + 8) =~= "require("@) by {
        assert forall|k: int| 0 <= k < 8 implies text[at + k] == "require("@[k] by {
            assert(call[k] == "require("@[k]);
        }
    }
    assert(text[at + 8] == call[8]);
    assert(text.subrange(at + 9, at + 9 + name.len()) =~= name) by {
        assert forall|k: int| 0 <= k < name.len() implies text[at + 9 + k] == name[k] by {
            assert(call[9 + k] == name[k]);
        }
    }
    assert(text[at + 9 + name.len()] == call[9 + name.len() as int]);
    assert(text.subrange(at + 10 + name.len(), at + 11 + name.len()) =~= ")"@) by {
        assert(text[at + 10 + name.len()] == call[10 + name.len() as int]);
    }
}

/// An import found by its two positions is an import by its text.
pub proof fn lemma_import_at_gives_statement(text: Seq<char>, start: int, from: int, name: Seq<char>)
    requires
        import_start_for(text, start, from),
        import_end_at(text, from, name),
    ensures
        has_import(text, name),
{
    reveal_strlit("import ");
    reveal_strlit(" from ");
    let n = name.len() as int;
    let binding = text.subrange(start + 7, from);
    let open = text[from + 6];
    let close = text[from + 7 + n];
    let statement = import_statement(binding, open, name, close);
    let b = binding.len() as int;
    assert(statement.len() == b + n + 15);
    assert forall|k: int| 0 <= k < statement.len() implies text[start + k] == statement[k] by {
        if k < 7 {
            lemma_holds_at_index(text, start, "import "@, k);
        } else if 7 + b <= k < 13 + b {
            lemma_holds_at_index(text, from, " from "@, k - 7 - b);
        } else if 14 + b <= k < 14 + b + n {
            lemma_holds_at_index(text, from + 7, name, k - 14 - b);
        }
    }
    assert(text.subrange(start, start + statement.len()) =~= statement);
    assert(holds_at(text, start, statement));
    assert(is_binding(binding)) by {
        if binding.contains('\n') {
            let k = choose|k: int| 0 <= k < binding.len() && binding[k] == '\n';
            assert(text[start + 7 + k] == '\n');
        }
    }
    assert(contains_text(text, import_statement(binding, open, name, close)));
}

/// An import by its text is found at its two positions.
pub proof fn lemma_statement_gives_import_at(
    text: Seq<char>,
    at: int,
    binding: Seq<char>,
    open: char,
    name: Seq<char>,
    close: char,
)
    requires
        is_binding(binding),
        is_quote(open),
        is_quote(close),
        holds_at(text, at, import_statement(binding, open, name, close)),
    ensures
        import_start_for(text, at, at + 7 + binding.len()),
        import_end_at(text, at + 7 + binding.len(), name),
{
    reveal_strlit("import ");
    reveal_strlit(" from ");
    let n = name.len() as int;
    let b = binding.len() as int;
    let from = at + 7 + b;
    let statement = import_statement(binding, open, name, close);
    assert(statement.len() == b + n + 15);
    assert forall|k: int| 0 <= k < statement.len() implies text[at + k] == statement[k] by {
        lemma_holds_at_index(text, at, statement, k);
    }
    assert(text.subrange(at, at + 7) =~= "import "@) by {
        assert forall|k: int| 0 <= k < 7 implies text[at + k] == "import "@[k] by {
            assert(statement[k] == "import "@[k]);
        }
    }
    assert forall|k: int| at + 7 <= k < from implies text[k] != '\n' by {
        assert(text[at + (k - at)] == statement[k - at]);
        assert(statement[k - at] == binding[k - at - 7]);
        assert(binding.contains(binding[k - at - 7]));
    }
    assert(text.subrange(from, from + 6) =~= " from "@) by {
        assert forall|k: int| 0 <= k < 6 implies text[from + k] == " from "@[k] by {
            assert(text[at + (7 + b + k)] == statement[7 + b + k]);
        }
    }
    assert(text[from + 6] == open) by {
        assert(text[at + (13 + b)] == statement[13 + b]);
    }
    assert(text.subrange(from + 7, from + 7 + n) =~= name) by {
        assert forall|k: int| 0 <= k < n implies text[from + 7 + k] == name[k] by {
            assert(text[at + (14 + b + k)] == statement[14 + b + k]);
        }
    }
    assert(text[from + 7 + n] == close) by {
        assert(text[at + (14 + b + n)] == statement[14 + b + n]);
    }
}

/// Decides `is_quote`.
fn quote_char(c: char) -> (quote: bool)
    ensures
        quote == is_quote(c),
{
    c == '"' || c == '\''
}

/// Decides `quoted_at`.
fn quoted_here(text: &[char], at: usize, name: &[char]) -> (found: bool)
    ensures
        found == quoted_at(text@, at as int, name@),
{
    if at >= text.len() || !quote_char(text[at]) {
        return false;
    }
    if !word_at(text, at + 1, name) {
        return false;
    }
    let close: usize = at + 1 + name.len();
    close < text.len() && quote_char(text[close])
}

/// Decides `require_at`.
fn require_here(text: &[char], at: usize, name: &[char]) -> (found: bool)
    ensures
        found == require_at(text@, at as int, name@),
{
    let keyword: [char; 8] = ['r', 'e', 'q', 'u', 'i', 'r', 'e', '('];
    let paren: [char; 1] = [')'];
    proof {
        reveal_strlit("require(");
        reveal_strlit(")");
        assert(keyword@ =~= "require("@);
        assert(paren@ =~= ")"@);
    }
    if at >= text.len() || !word_at(text, at, keyword.as_slice()) {
        return false;
    }
    if !quoted_here(text, at + 8, name) {
        return false;
    }
    word_at(text, at + 10 + name.len(), paren.as_slice())
}

/// Decides `has_require`.
pub fn find_require(text: &[char], name: &[char]) -> (found: bool)
    ensures
        found == has_require(text@, name@),
{
    let mut at: usize = 0;
    while at < text.len()
        invariant
            at <= text.len(),
            forall|a: int| 0 <= a < at ==> !require_at(text@, a, name@),
        decreases text.len() - at,
    {
        if require_here(text, at, name) {
            proof {
                lemma_require_at_gives_call(text@, at as int, name@);
            }
            return true;
        }
        at += 1;
    }
    proof {
        if has_require(text@, name@) {
            let (open, close) = choose|open: char, close: char|
                is_quote(open) && is_quote(close) && contains_text(
                    text@,
                    #[trigger] require_call(open, name@, close),
                );
            let a = choose|a: int| holds_at(text@, a, require_call(open, name@, close));
            lemma_call_gives_require_at(text@, a, open, name@, close);
            assert(a < text.len());
        }
    }
    false
}

/// Decides `import_end_at`.
fn import_end_here(text: &[char], from: usize, name: &[char]) -> (found: bool)
    ensures
        found == import_end_at(text@, from as int, name@),
{
    let keyword: [char; 6] = [' ', 'f', 'r', 'o', 'm', ' '];
    proof {
        reveal_strlit(" from ");
        assert(keyword@ =~= " from "@);
    }
    from < text.len() && word_at(text, from, keyword.as_slice()) && quoted_here(
        text,
        from + 6,
        name,
    )
}

/// Decides whether an `import` ends just before `from`.
fn import_ends_here(text: &[char], from: usize) -> (found: bool)
    ensures
        found == holds_at(text@, from - 7, "import "@),
{
    let keyword: [char; 7] = ['i', 'm', 'p', 'o', 'r', 't', ' '];
    proof {
        reveal_strlit("import ");
        assert(keyword@ =~= "import "@);
    }
    from >= 7 && word_at(text, from - 7, keyword.as_slice())
}

/// Decides `has_import` in one pass: it goes through the places where the end
/// of a statement may stand and keeps whether an `import` on the same line
/// reaches the place.
pub fn find_import(text: &[char], name: &[char]) -> (found: bool)
    ensures
        found == has_import(text@, name@),
{
    let mut from: usize = 0;
    let mut open: bool = false;
    proof {
        reveal_strlit("import ");
    }
    while from < text.len()
        invariant
            from <= text.len(),
            open == import_open_at(text@, from as int),
            forall|f: int|
                0 <= f < from ==> !(import_open_at(text@, f) && import_end_at(text@, f, name@)),
        decreases text.len() - from,
    {
        if open && import_end_here(text, from, name) {
            proof {
                let start = choose|start: int| import_start_for(text@, start, from as int);
                lemma_import_at_gives_statement(text@, start, from as int, name@);
            }
            return true;
        }
        let starts: bool = import_ends_here(text, from);
        let next: bool = (open || starts) && text[from] != '\n';
        proof {
            let f = from as int;
            let g = f + 1;
            if next {
                if open {
                    let start = choose|start: int| import_start_for(text@, start, f);
                    assert(import_start_for(text@, start, g));
                } else {
                    assert(import_start_for(text@, f - 7, g));
                }
            }
            if import_open_at(text@, g) {
                let start = choose|start: int| import_start_for(text@, start, g);
                assert(text@[f] != '\n');
                if start + 7 < f {
                    assert(import_start_for(text@, start, f));
                }
            }
        }
        open = next;
        from += 1;
    }
    proof {
        if has_import(text@, name@) {
            let (binding, open, close) = choose|binding: Seq<char>, open: char, close: char|
                is_binding(binding) && is_quote(open) && is_quote(close) && contains_text(
                    text@,
                    #[trigger] import_statement(binding, open, name@, close),
                );
            let a = choose|a: int|
                holds_at(text@, a, import_statement(binding, open, name@, close));
            lemma_statement_gives_import_at(text@, a, binding, open, name@, close);
            let f = a + 7 + binding.len();
            assert(import_start_for(text@, a, f));
            assert(import_open_at(text@, f));
            assert(f < text.len());
        }
    }
    false
}

/// Whether a file with these contents uses the package: whether it holds a
/// static import or a dynamic require that names exactly `package_name`.
pub fn uses_package(contents: &str, package_name: &str) -> (used: bool)
    ensures
        used == is_usage(contents@, package_name@),
{
    let text = chars_of(contents);
    let name = chars_of(package_name);
    let imports = find_import(text.as_slice(), name.as_slice());
    let requires_it = find_require(text.as_slice(), name.as_slice());
    imports || requires_it
}

/// A text that holds a static import of `name`, with a binding between
/// `import` and `from` and the name between two quote characters, uses `name`,
/// whatever else the text holds.
pub proof fn lemma_import_statement_is_usage(
    text: Seq<char>,
    binding: Seq<char>,
    open: char,
    name: Seq<char>,
    close: char,
)
    requires
        is_binding(binding),
        is_quote(open),
        is_quote(close),
        contains_text(text, import_statement(binding, open, name, close)),
    ensures
        is_usage(text, name),
{
}

/// A require of a longer name is no require of `name`: where the text goes on
/// behind `name` with anything but a quote character, no require of `name`
/// stands at that place.
pub proof fn lemma_longer_name_is_no_require(
    text: Seq<char>,
    at: int,
    open: char,
    name: Seq<char>,
    rest: Seq<char>,
    close: char,
)
    requires
        rest.len() > 0,
        !is_quote(rest[0]),
        holds_at(text, at, require_call(open, name + rest, close)),
    ensures
        !require_at(text, at, name),
{
    reveal_strlit("require(");
    reveal_strlit(")");
    let call = require_call(open, name + rest, close);
    let n = name.len() as int;
    lemma_holds_at_index(text, at, call, 9 + n);
    assert(call[9 + n] == rest[0]);
}

/// A text that begins with `require(` and is too short holds no import.
proof fn lemma_short_text_has_no_import(text: Seq<char>, name: Seq<char>)
    requires
        text.len() <= name.len() + 17,
        text.len() >= 2,
        text[0] == 'r',
        text[1] == 'e',
    ensures
        !has_import(text, name),
{
    if has_import(text, name) {
        let (binding, open, close) = choose|binding: Seq<char>, open: char, close: char|
            is_binding(binding) && is_quote(open) && is_quote(close) && contains_text(
                text,
                #[trigger] import_statement(binding, open, name, close),
            );
        let a = choose|a: int| holds_at(text, a, import_statement(binding, open, name, close));
        lemma_statement_gives_import_at(text, a, binding, open, name, close);
        assert(0 <= a <= 1);
        assert(text[a] == 'i') by {
            reveal_strlit("import ");
            lemma_holds_at_index(text, a, "import "@, 0);
        }
    }
}

/// A text that reads `require(` only at its start, and goes on behind the
/// name with no quote character, holds no require of the name.
proof fn lemma_short_text_has_no_require(text: Seq<char>, name: Seq<char>)
    requires
        text.len() == name.len() + 17,
        text[1] != 'r',
        text[2] != 'r',
        text[3] != 'r',
        text[4] != 'r',
        text[7] != 'q',
        text[6] != 'r',
        !is_quote(text[9 + name.len() as int]),
    ensures
        !has_require(text, name),
{
    if has_require(text, name) {
        let (open, close) = choose|open: char, close: char|
            is_quote(open) && is_quote(close) && contains_text(
                text,
                #[trigger] require_call(open, name, close),
            );
        let a = choose|a: int| holds_at(text, a, require_call(open, name, close));
        lemma_call_gives_require_at(text, a, open, name, close);
        assert(0 <= a <= 6) by {
            reveal_strlit(")");
        }
        assert(is_quote(text[a + 9 + name.len()]));
        assert(text[a] == 'r' && text[a + 2] == 'q') by {
            reveal_strlit("require(");
            lemma_holds_at_index(text, a, "require("@, 0);
            lemma_holds_at_index(text, a, "require("@, 2);
        }
    }
}

/// A text that is nothing but a require of `name` followed by `-extra` does
/// not use `name`.
pub proof fn lemma_longer_name_alone_is_no_usage(name: Seq<char>)
    ensures
        !is_usage(require_call('"', name + "-extra"@, '"'), name),
{
    let longer = name + "-extra"@;
    let text = require_call('"', longer, '"');
    let n = name.len() as int;
    assert(longer.len() == n + 6 && longer[n] == '-') by {
        reveal_strlit("-extra");
    }
    assert(text.len() == n + 17 && text[0] == 'r' && text[1] == 'e' && text[2] == 'q' && text[3]
        == 'u' && text[4] == 'i' && text[6] == 'e' && text[7] == '(' && text[9 + n] == '-') by {
        reveal_strlit("require(");
        reveal_strlit(")");
    }
    lemma_short_text_has_no_require(text, name);
    lemma_short_text_has_no_import(text, name);
}

} // verus!
