//! Which files count: the extension of a file name, and the filter over it.

use vstd::prelude::*;
use vstd::string::StrSliceExecFns;
use vstd::string::StringExecFns;

verus! {

/// Index of the last `.` in `name`, or `-1` where it has none.
pub open spec fn last_dot(name: Seq<char>) -> int
    decreases name.len(),
{
    if name.len() == 0 {
        -1
    } else if name.last() == '.' {
        name.len() - 1
    } else {
        last_dot(name.drop_last())
    }
}

/// The extension of a file name: what follows its last `.`, without the
/// dot. A name without a dot has none, nor has one whose only dot comes
/// first, nor has the name `..`.
pub open spec fn extension_of(name: Seq<char>) -> Option<Seq<char>> {
    let dot = last_dot(name);
    if dot <= 0 || name == seq!['.', '.'] {
        None
    } else {
        Some(name.subrange(dot + 1, name.len() as int))
    }
}

/// Whether a file called `name` passes a filter that allows `extensions`:
/// the empty filter lets every file pass, any other one the files whose
/// extension it lists, letter for letter.
pub open spec fn passes(name: Seq<char>, extensions: Seq<Seq<char>>) -> bool {
    extensions.len() == 0 || match extension_of(name) {
        Some(ext) => extensions.contains(ext),
        None => false,
    }
}

/// `last_dot` points at a dot that no dot follows.
pub proof fn lemma_last_dot(name: Seq<char>)
    ensures
        -1 <= last_dot(name) < name.len(),
        last_dot(name) >= 0 ==> name[last_dot(name)] == '.',
        forall|k: int| last_dot(name) < k < name.len() ==> name[k] != '.',
    decreases name.len(),
{
    if name.len() > 0 && name.last() != '.' {
        let front = name.drop_last();
        lemma_last_dot(front);
        assert forall|k: int| last_dot(name) < k < name.len() implies name[k] != '.' by {
            if k < front.len() {
                assert(name[k] == front[k]);
            }
        }
    }
}

/// The position that `lemma_last_dot` describes is the only one.
pub proof fn lemma_last_dot_unique(name: Seq<char>, dot: int)
    requires
        -1 <= dot < name.len(),
        dot >= 0 ==> name[dot] == '.',
        forall|k: int| dot < k < name.len() ==> name[k] != '.',
    ensures
        last_dot(name) == dot,
{
    lemma_last_dot(name);
}

/// The extension of `name`, where it has one.
pub fn extension(name: &str) -> (ext: Option<String>)
    ensures
        ext.is_some() == extension_of(name@).is_some(),
        ext matches Some(e) ==> extension_of(name@) == Some(e@),
{
    let n: usize = name.unicode_len();
    let mut i: usize = n;
    while i > 0 && name.get_char(i - 1) != '.'
        invariant
            i <= n,
            n == name@.len(),
            forall|k: int| i <= k < n ==> name@[k] != '.',
        decreases i,
    {
        i = i - 1;
    }
    proof {
        lemma_last_dot_unique(name@, i - 1);
    }
    if i <= 1 {
        return None;
    }
    if n == 2 && name.get_char(0) == '.' {
        assert(name@ =~= seq!['.', '.']);
        return None;
    }
    assert(name@ != seq!['.', '.']) by {
        if name@ == seq!['.', '.'] {
            assert(seq!['.', '.'].len() == 2);
            assert(seq!['.', '.'][0] == '.');
        }
    }
    Some(String::from_str(name.substring_char(i, n)))
}

/// The extensions that count. An empty filter lets every file count.
#[derive(Debug, Clone, PartialEq, Eq)]
pub struct ExtensionFilter {
    pub extensions: Vec<String>,
}

impl View for ExtensionFilter {
    type V = Seq<Seq<char>>;

    open spec fn view(&self) -> Seq<Seq<char>> {
        Seq::new(self.extensions@.len(), |i: int| self.extensions@[i]@)
    }
}

impl ExtensionFilter {
    /// The filter that allows `extensions`, written without the dot.
    pub fn new(extensions: Vec<String>) -> (filter: ExtensionFilter)
        ensures
            filter.extensions == extensions,
    {
        ExtensionFilter { extensions }
    }

    /// Whether the filter lists `ext`.
    pub fn lists(&self, ext: &String) -> (found: bool)
        ensures
            found == self@.contains(ext@),
    {
        let n: usize = self.extensions.len();
        let mut i: usize = 0;
        while i < n
            invariant
                i <= n,
                n == self.extensions@.len(),
                forall|k: int| 0 <= k < i ==> self@[k] != ext@,
            decreases n - i,
        {
            if self.extensions[i] == *ext {
                assert(self@[i as int] == ext@);
                return true;
            }
            i = i + 1;
        }
        false
    }

    /// Whether a file called `name` counts.
    pub fn matches(&self, name: &str) -> (counted: bool)
        ensures
            counted == passes(name@, self@),
    {
        if self.extensions.len() == 0 {
            return true;
        }
        match extension(name) {
            Some(ext) => self.lists(&ext),
            None => false,
        }
    }

    /// A copy of the filter.
    pub fn duplicate(&self) -> (filter: ExtensionFilter)
        ensures
            filter@ == self@,
    {
        let n: usize = self.extensions.len();
        let mut extensions: Vec<String> = Vec::new();
        let mut i: usize = 0;
        while i < n
            invariant
                i <= n,
                n == self.extensions@.len(),
                extensions@.len() == i,
                forall|k: int| 0 <= k < i ==> extensions@[k]@ == self.extensions@[k]@,
            decreases n - i,
        {
            extensions.push(self.extensions[i].clone());
            i = i + 1;
        }
        let filter = ExtensionFilter { extensions };
        assert(filter@ =~= self@);
        filter
    }
}

/// White space as Unicode defines it.
pub open spec fn is_space(c: char) -> bool {
    let code = c as u32;
    ||| 0x09 <= code <= 0x0d
    ||| code == 0x20
    ||| code == 0x85
    ||| code == 0xa0
    ||| code == 0x1680
    ||| 0x2000 <= code <= 0x200a
    ||| code == 0x2028
    ||| code == 0x2029
    ||| code == 0x202f
    ||| code == 0x205f
    ||| code == 0x3000
}

/// `text` without the white space at its two ends.
pub open spec fn trimmed(text: Seq<char>) -> Seq<char>
    decreases text.len(),
{
    if text.len() > 0 && is_space(text.first()) {
        trimmed(text.drop_first())
    } else if text.len() > 0 && is_space(text.last()) {
        trimmed(text.drop_last())
    } else {
        text
    }
}

/// The pieces into which the commas cut `text`: one more than it has
/// commas.
pub open spec fn fields(text: Seq<char>) -> Seq<Seq<char>>
    decreases text.len(),
{
    if text.len() == 0 {
        seq![Seq::empty()]
    } else if text.last() == ',' {
        fields(text.drop_last()).push(Seq::empty())
    } else {
        let front = fields(text.drop_last());
        front.drop_last().push(front.last().push(text.last()))
    }
}

/// The pieces trimmed, without those of which nothing is left.
pub open spec fn cleaned(pieces: Seq<Seq<char>>) -> Seq<Seq<char>>
    decreases pieces.len(),
{
    if pieces.len() == 0 {
        Seq::empty()
    } else if trimmed(pieces.last()).len() == 0 {
        cleaned(pieces.drop_last())
    } else {
        cleaned(pieces.drop_last()).push(trimmed(pieces.last()))
    }
}

/// The extensions that a list names: the list is cut at its commas, each
/// piece is trimmed, and empty pieces are left out.
pub open spec fn listed(text: Seq<char>) -> Seq<Seq<char>> {
    cleaned(fields(text))
}

/// Whether `c` is white space.
pub fn is_whitespace(c: char) -> (space: bool)
    ensures
        space == is_space(c),
{
    let code: u32 = c as u32;
    (0x09 <= code && code <= 0x0d) || code == 0x20 || code == 0x85 || code == 0xa0 || code
        == 0x1680 || (0x2000 <= code && code <= 0x200a) || code == 0x2028 || code == 0x2029
        || code == 0x202f || code == 0x205f || code == 0x3000
}

/// The piece of `list` between `from` and `to`, trimmed.
fn trimmed_piece(list: &str, from: usize, to: usize) -> (piece: String)
    requires
        from <= to <= list@.len(),
    ensures
        piece@ == trimmed(list@.subrange(from as int, to as int)),
{
    let mut a: usize = from;
    let mut b: usize = to;
    while a < b && is_whitespace(list.get_char(a))
        invariant
            from <= a <= b,
            b == to,
            to <= list@.len(),
            trimmed(list@.subrange(a as int, b as int)) == trimmed(
                list@.subrange(from as int, to as int),
            ),
        decreases b - a,
    {
        proof {
            assert(list@.subrange(a as int, b as int).drop_first() =~= list@.subrange(
                a + 1,
                b as int,
            ));
        }
        a = a + 1;
    }
    while a < b && is_whitespace(list.get_char(b - 1))
        invariant
            from <= a <= b <= to,
            to <= list@.len(),
            a < b ==> !is_space(list@[a as int]),
            trimmed(list@.subrange(a as int, b as int)) == trimmed(
                list@.subrange(from as int, to as int),
            ),
        decreases b - a,
    {
        proof {
            assert(list@.subrange(a as int, b as int).drop_last() =~= list@.subrange(
                a as int,
                b - 1,
            ));
        }
        b = b - 1;
    }
    String::from_str(list.substring_char(a, b))
}

impl ExtensionFilter {
    /// Reads a filter from a list of extensions that commas separate, such
    /// as `ts, tsx`. White space around an extension is dropped, and so is
    /// an extension of which nothing is left: the empty list gives the
    /// filter that lets every file count.
    pub fn parse(list: &str) -> (filter: ExtensionFilter)
        ensures
            filter@ == listed(list@),
    {
        let n: usize = list.unicode_len();
        let mut extensions: Vec<String> = Vec::new();
        let ghost mut done: Seq<Seq<char>> = Seq::empty();
        let mut start: usize = 0;
        let mut i: usize = 0;
        proof {
            assert(list@.take(0) =~= Seq::empty());
            assert(list@.subrange(0, 0) =~= Seq::empty());
            assert(fields(list@.take(0)) =~= done.push(list@.subrange(0, 0)));
        }
        while i < n
            invariant
                start <= i <= n,
                n == list@.len(),
                fields(list@.take(i as int)) == done.push(list@.subrange(start as int, i as int)),
                (ExtensionFilter { extensions })@ == cleaned(done),
            decreases n - i,
        {
            let ghost piece = list@.subrange(start as int, i as int);
            proof {
                assert(list@.take(i + 1).drop_last() =~= list@.take(i as int));
                assert(done.push(piece).drop_last() =~= done);
            }
            if list.get_char(i) == ',' {
                let ext = trimmed_piece(list, start, i);
                proof {
                    done = done.push(piece);
                    assert(done.drop_last().push(piece) =~= done);
                    assert(list@.subrange(i + 1, i + 1) =~= Seq::empty());
                }
                if ext.as_str().unicode_len() > 0 {
                    let ghost before = (ExtensionFilter { extensions })@;
                    extensions.push(ext);
                    assert((ExtensionFilter { extensions })@ =~= before.push(trimmed(piece)));
                }
                start = i + 1;
            } else {
                proof {
                    assert(piece.push(list@[i as int]) =~= list@.subrange(start as int, i + 1));
                }
            }
            i = i + 1;
        }
        let ghost piece = list@.subrange(start as int, n as int);
        let ext = trimmed_piece(list, start, n);
        proof {
            assert(list@.take(n as int) =~= list@);
            assert(done.push(piece).drop_last() =~= done);
        }
        if ext.as_str().unicode_len() > 0 {
            let ghost before = (ExtensionFilter { extensions })@;
            extensions.push(ext);
            assert((ExtensionFilter { extensions })@ =~= before.push(trimmed(piece)));
        }
        ExtensionFilter { extensions }
    }
}

} // verus!
