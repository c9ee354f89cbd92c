use vstd::prelude::*;

verus! {

use vstd::string::StrSliceExecFns;
use vstd::string::StringExecFns;

/// Number of colors in the palette.
pub const PALETTE_SIZE: usize = 12;

/// The fixed palette: twelve visually distinct terminal color numbers, the
/// six strong colors first and their bright forms after them.
pub open spec fn spec_palette(i: int) -> u16 {
    if i == 0 {
        6  // cyan
    } else if i == 1 {
        3  // yellow
    } else if i == 2 {
        2  // green
    } else if i == 3 {
        5  // magenta
    } else if i == 4 {
        1  // red
    } else if i == 5 {
        4  // blue
    } else if i == 6 {
        14  // bright cyan
    } else if i == 7 {
        11  // bright yellow
    } else if i == 8 {
        10  // bright green
    } else if i == 9 {
        13  // bright magenta
    } else if i == 10 {
        9  // bright red
    } else {
        12  // bright blue
    }
}

/// The color assigned to the worker at a manifest index: the palette repeats
/// cyclically.
pub open spec fn spec_color(i: int) -> u16 {
    spec_palette(i % (PALETTE_SIZE as int))
}

/// The color for the worker at manifest index `index`.
pub fn pick_color(index: usize) -> (c: u16)
    ensures
        c == spec_color(index as int),
{
    let r = index % PALETTE_SIZE;
    if r == 0 {
        6
    } else if r == 1 {
        3
    } else if r == 2 {
        2
    } else if r == 3 {
        5
    } else if r == 4 {
        1
    } else if r == 5 {
        4
    } else if r == 6 {
        14
    } else if r == 7 {
        11
    } else if r == 8 {
        10
    } else if r == 9 {
        13
    } else if r == 10 {
        9
    } else {
        12
    }
}

/// Color cycling: two manifest indexes a whole palette apart are assigned
/// the same color.
pub proof fn lemma_color_cycles(i: int)
    requires
        0 <= i,
    ensures
        spec_color(i + PALETTE_SIZE as int) == spec_color(i),
{
    assert((i + PALETTE_SIZE as int) % (PALETTE_SIZE as int) == i % (PALETTE_SIZE as int));
}

/// `n` spaces.
pub open spec fn spec_spaces(n: nat) -> Seq<char>
    decreases n,
{
    if n == 0 {
        Seq::empty()
    } else {
        spec_spaces((n - 1) as nat).push(' ')
    }
}

/// There really are `n` of them.
pub proof fn lemma_spaces_len(n: nat)
    ensures
        spec_spaces(n).len() == n,
    decreases n,
{
    if n > 0 {
        lemma_spaces_len((n - 1) as nat);
    }
}

/// The column written before a line: the name, right-padded with spaces to
/// the manifest's padding width, then a separator.  A name longer than the
/// width is not truncated.
pub open spec fn prefix_spec(name: Seq<char>, width: nat) -> Seq<char> {
    if name.len() <= width {
        name + spec_spaces((width - name.len()) as nat) + " | "@
    } else {
        name + " | "@
    }
}

/// Render the prefix column for one line of the named worker's output.
pub fn render_prefix(name: &str, width: usize) -> (r: String)
    ensures
        r@ == prefix_spec(name@, width as nat),
{
    let mut out = name.to_owned();
    let mut count = name.unicode_len();
    proof {
        assert(out@ + spec_spaces(0) =~= out@);
    }
    while count < width
        invariant
            name@.len() <= count,
            count <= width || count == name@.len(),
            out@ == name@ + spec_spaces((count - name@.len()) as nat),
        decreases width - count,
    {
        out.append(" ");
        proof {
            reveal_strlit(" ");
            assert(out@ =~= name@ + spec_spaces((count + 1 - name@.len()) as nat));
        }
        count = count + 1;
    }
    out.append(" | ");
    proof {
        if name@.len() <= width {
            assert(out@ =~= name@ + spec_spaces((width - name@.len()) as nat) + " | "@);
        } else {
            assert(spec_spaces(0) =~= Seq::<char>::empty());
            assert(out@ =~= name@ + " | "@);
        }
    }
    out
}

} // verus!
