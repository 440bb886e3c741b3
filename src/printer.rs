//! Rendering a layout as a grid of names, one column per unit.
use vstd::prelude::*;
use vstd::string::{StringExecFns, StringSliceAdditionalSpecFns};
use crate::geo::{Ratio, Rect};
use crate::template::{lemma_index, lemma_index_injective};
use vstd::arithmetic::div_mod::{lemma_fundamental_div_mod, lemma_mod_pos_bound};
use crate::{Layout, Node};

verus! {

/// What a cell that no leaf covers shows.
pub const DEFAULT: &'static str = "<unset>";

/// What a leaf without a name shows.
pub const UNKNOWN: &'static str = "<unknown>";

/// The length in bytes that `str::len` reports.
pub open spec fn byte_len(s: &str) -> nat {
    (s.spec_bytes().len() as usize) as nat
}

/// The whole units in `r`.
pub open spec fn floor(r: Ratio) -> nat {
    if r.den == 0 {
        0
    } else {
        (r.num / r.den) as nat
    }
}

/// The name given to `n`: the first that `names` pairs with it.
pub open spec fn name_of(names: Seq<(Node, &'static str)>, n: Node) -> &'static str
    decreases names.len(),
{
    if names.len() == 0 {
        UNKNOWN
    } else if names[0].0 == n {
        names[0].1
    } else {
        name_of(names.subrange(1, names.len() as int), n)
    }
}

/// Whether unit cell `(x, y)` lies in the whole-unit part of `r`.
pub open spec fn covers(r: Rect, x: int, y: int) -> bool {
    floor(r.origin.x) <= x < floor(r.origin.x) + floor(r.size.width) && floor(r.origin.y) <= y
        < floor(r.origin.y) + floor(r.size.height)
}

/// What cell `(x, y)` shows: the name of the last entry covering it.
pub open spec fn painted(table: Seq<(Node, Rect)>, names: Seq<(Node, &'static str)>, x: int, y: int) -> &'static str
    decreases table.len(),
{
    if table.len() == 0 {
        DEFAULT
    } else if covers(table.last().1, x, y) {
        name_of(names, table.last().0)
    } else {
        painted(table.drop_last(), names, x, y)
    }
}

/// Whether `r` covers some cell of a `w` by `h` grid.
pub open spec fn paints_any(r: Rect, w: nat, h: nat) -> bool {
    floor(r.size.width) >= 1 && floor(r.size.height) >= 1 && floor(r.origin.x) < w && floor(r.origin.y) < h
}

/// The longest name, in bytes, among the placeholder and the names of the
/// entries that cover a cell.
pub open spec fn widest(table: Seq<(Node, Rect)>, names: Seq<(Node, &'static str)>, w: nat, h: nat) -> nat
    decreases table.len(),
{
    if table.len() == 0 {
        byte_len(DEFAULT)
    } else {
        let prev = widest(table.drop_last(), names, w, h);
        let len = byte_len(name_of(names, table.last().0));
        if paints_any(table.last().1, w, h) && prev < len {
            len
        } else {
            prev
        }
    }
}

/// A cell's text: its name, a space, and padding up to `max` bytes.
pub open spec fn cell_text(name: &'static str, max: nat) -> Seq<char> {
    let used = byte_len(name) + 1;
    name@ + seq![' '] + Seq::new(if used < max { (max - used) as nat } else { 0 }, |i: int| ' ')
}

/// The text of the first `x` cells of row `y` of `data`, `w` cells a row.
pub open spec fn row_text(data: Seq<&'static str>, w: nat, max: nat, y: int, x: int) -> Seq<char>
    decreases x,
{
    if x <= 0 {
        Seq::empty()
    } else {
        row_text(data, w, max, y, x - 1) + cell_text(data[y * w + x - 1], max)
    }
}

/// The text of the first `y` rows, each ended by a newline; nothing for a
/// grid without columns.
pub open spec fn grid_text(data: Seq<&'static str>, w: nat, max: nat, y: int) -> Seq<char>
    decreases y,
{
    if y <= 0 || w == 0 {
        Seq::empty()
    } else {
        grid_text(data, w, max, y - 1) + row_text(data, w, max, y - 1, w as int) + seq!['\n']
    }
}

/// The cells of a `w` by `h` rendering of `table`, row by row.
pub open spec fn canvas(table: Seq<(Node, Rect)>, names: Seq<(Node, &'static str)>, w: nat, h: nat) -> Seq<
    &'static str,
> {
    Seq::new(w * h, |i: int| painted(table, names, i % (w as int), i / (w as int)))
}

struct GridPrinter {
    width: usize,
    height: usize,
    data: Vec<&'static str>,
    max: usize,
}

impl GridPrinter {
    fn new(width: usize, height: usize) -> (p: GridPrinter)
        requires
            width * height <= usize::MAX,
        ensures
            p.width == width,
            p.height == height,
            p.data@.len() == width * height,
            forall|i: int| 0 <= i < p.data@.len() ==> p.data@[i] == DEFAULT,
            p.max == byte_len(DEFAULT),
    {
        let n = width * height;
        let mut data: Vec<&'static str> = Vec::new();
        while data.len() < n
            invariant
                data@.len() <= n,
                forall|i: int| 0 <= i < data@.len() ==> data@[i] == DEFAULT,
            decreases n - data@.len(),
        {
            data.push(DEFAULT);
        }
        GridPrinter { width, height, data, max: DEFAULT.len() }
    }

    fn set(&mut self, x: usize, y: usize, name: &'static str)
        requires
            x < old(self).width,
            y < old(self).height,
            old(self).data@.len() == old(self).width * old(self).height,
        ensures
            final(self).width == old(self).width,
            final(self).height == old(self).height,
            final(self).data@ == old(self).data@.update(y * old(self).width + x, name),
            final(self).max == if old(self).max < byte_len(name) {
                byte_len(name)
            } else {
                old(self).max as nat
            },
    {
        proof {
            lemma_index(self.width as int, self.height as int, x as int, y as int);
        }
        let n = self.data.len();
        assert(y * self.width + x < n);
        let i = y * self.width + x;
        self.data.set(i, name);
        if self.max < name.len() {
            self.max = name.len();
        }
    }

    fn display(&self) -> (r: String)
        requires
            self.data@.len() == self.width * self.height,
        ensures
            r@ == grid_text(self.data@, self.width as nat, self.max as nat, self.height as int),
    {
        let mut buf = String::new();
        if self.width == 0 {
            return buf;
        }
        let mut y: usize = 0;
        while y < self.height
            invariant
                self.data@.len() == self.width * self.height,
                self.width > 0,
                y <= self.height,
                buf@ == grid_text(self.data@, self.width as nat, self.max as nat, y as int),
            decreases self.height - y,
        {
            let mut x: usize = 0;
            while x < self.width
                invariant
                    self.data@.len() == self.width * self.height,
                    self.width > 0,
                    y < self.height,
                    x <= self.width,
                    buf@ == grid_text(self.data@, self.width as nat, self.max as nat, y as int) + row_text(
                        self.data@,
                        self.width as nat,
                        self.max as nat,
                        y as int,
                        x as int,
                    ),
                decreases self.width - x,
            {
                proof {
                    lemma_index(self.width as int, self.height as int, x as int, y as int);
                }
                let n = self.data.len();
                assert(y * self.width + x < n);
                let name = self.data[y * self.width + x];
                let ghost start = buf@;
                buf.append(name);
                proof {
                    reveal_strlit(" ");
                }
                buf.append(" ");
                let ghost padded = buf@;
                let len = name.len();
                let mut pad: usize = 0;
                if len < self.max && len + 1 < self.max {
                    pad = self.max - (len + 1);
                }
                let mut i: usize = 0;
                while i < pad
                    invariant
                        i <= pad,
                        buf@ == padded + Seq::new(i as nat, |j: int| ' '),
                    decreases pad - i,
                {
                    proof {
                        reveal_strlit(" ");
                    }
                    buf.append(" ");
                    proof {
                        assert(buf@ =~= padded + Seq::new((i + 1) as nat, |j: int| ' '));
                    }
                    i += 1;
                }
                proof {
                    assert(pad == if byte_len(name) + 1 < self.max {
                        (self.max - (byte_len(name) + 1)) as nat
                    } else {
                        0
                    });
                    assert(buf@ =~= start + cell_text(name, self.max as nat));
                    assert(y * self.width + (x + 1) - 1 == y * self.width + x);
                }
                x += 1;
            }
            proof {
                reveal_strlit("\n");
            }
            buf.append("\n");
            y += 1;
        }
        buf
    }
}


fn floor_exec(r: Ratio) -> (n: u64)
    ensures
        n == floor(r),
{
    if r.den == 0 {
        0
    } else {
        r.num / r.den
    }
}

fn lookup(names: &Vec<(Node, &'static str)>, n: Node) -> (r: &'static str)
    ensures
        r == name_of(names@, n),
{
    let mut i: usize = 0;
    assert(names@.subrange(0, names@.len() as int) =~= names@);
    while i < names.len()
        invariant
            i <= names@.len(),
            name_of(names@, n) == name_of(names@.subrange(i as int, names@.len() as int), n),
        decreases names@.len() - i,
    {
        if names[i].0 == n {
            return names[i].1;
        }
        proof {
            let rest = names@.subrange(i as int, names@.len() as int);
            assert(rest.subrange(1, rest.len() as int) =~= names@.subrange(i + 1, names@.len() as int));
        }
        i += 1;
    }
    UNKNOWN
}

/// Paints the whole cells of `r` that lie in the grid with `name`.
fn paint(p: &mut GridPrinter, r: Rect, name: &'static str, Ghost(prev): Ghost<Seq<(Node, Rect)>>, Ghost(names): Ghost<Seq<(Node, &'static str)>>)
    requires
        old(p).data@.len() == old(p).width * old(p).height,
        forall|a: int, b: int|
            0 <= a < old(p).width && 0 <= b < old(p).height ==> #[trigger] old(p).data@[b * old(p).width + a]
                == painted(prev, names, a, b),
    ensures
        final(p).width == old(p).width,
        final(p).height == old(p).height,
        final(p).data@.len() == old(p).width * old(p).height,
        forall|a: int, b: int|
            0 <= a < old(p).width && 0 <= b < old(p).height ==> #[trigger] final(p).data@[b * old(p).width + a]
                == if covers(r, a, b) {
                name
            } else {
                painted(prev, names, a, b)
            },
        final(p).max == if paints_any(r, old(p).width as nat, old(p).height as nat) && old(p).max
            < byte_len(name) {
            byte_len(name)
        } else {
            old(p).max as nat
        },
{
    let w = p.width;
    let h = p.height;
    let fx = floor_exec(r.origin.x);
    let fy = floor_exec(r.origin.y);
    let fw = floor_exec(r.size.width);
    let fh = floor_exec(r.size.height);
    if !(fw >= 1 && fh >= 1 && fx < w as u64 && fy < h as u64) {
        return;
    }
    let x0 = fx as usize;
    let y0 = fy as usize;
    let x1: usize = if (fx as u128) + (fw as u128) < (w as u128) {
        (fx + fw) as usize
    } else {
        w
    };
    let y1: usize = if (fy as u128) + (fh as u128) < (h as u128) {
        (fy + fh) as usize
    } else {
        h
    };
    let ghost m0 = p.max as nat;
    let ghost up = if m0 < byte_len(name) { byte_len(name) } else { m0 };
    let mut x = x0;
    while x < x1
        invariant
            p.width == w,
            p.height == h,
            p.data@.len() == w * h,
            x0 < x1 <= w,
            y0 < y1 <= h,
            x0 <= x <= x1,
            x0 == floor(r.origin.x),
            y0 == floor(r.origin.y),
            x1 == if floor(r.origin.x) + floor(r.size.width) < w { floor(r.origin.x) + floor(r.size.width) } else { w as nat },
            y1 == if floor(r.origin.y) + floor(r.size.height) < h { floor(r.origin.y) + floor(r.size.height) } else { h as nat },
            up == if m0 < byte_len(name) { byte_len(name) } else { m0 },
            x == x0 ==> p.max == m0,
            x > x0 ==> p.max == up,
            forall|a: int, b: int|
                0 <= a < w && 0 <= b < h ==> #[trigger] p.data@[b * w + a] == if x0 <= a < x && y0 <= b < y1 {
                    name
                } else {
                    painted(prev, names, a, b)
                },
        decreases x1 - x,
    {
        let mut y = y0;
        while y < y1
            invariant
                p.width == w,
                p.height == h,
                p.data@.len() == w * h,
                x0 < x1 <= w,
                y0 < y1 <= h,
                x0 <= x < x1,
                y0 <= y <= y1,
                up == if m0 < byte_len(name) { byte_len(name) } else { m0 },
                (x == x0 && y == y0) ==> p.max == m0,
                (x > x0 || y > y0) ==> p.max == up,
                forall|a: int, b: int|
                    0 <= a < w && 0 <= b < h ==> #[trigger] p.data@[b * w + a] == if (x0 <= a < x && y0 <= b < y1)
                        || (a == x && y0 <= b < y) {
                        name
                    } else {
                        painted(prev, names, a, b)
                    },
            decreases y1 - y,
        {
            let ghost mb = p.max as nat;
            p.set(x, y, name);
            proof {
                lemma_index(w as int, h as int, x as int, y as int);
                assert(p.data@.len() == w * h);
                assert(mb == m0 || mb == up);
                assert(p.max == up);
                assert forall|a: int, b: int| 0 <= a < w && 0 <= b < h implies #[trigger] p.data@[b * w + a]
                    == if (x0 <= a < x && y0 <= b < y1) || (a == x && y0 <= b < y + 1) {
                    name
                } else {
                    painted(prev, names, a, b)
                } by {
                    lemma_index(w as int, h as int, a, b);
                    lemma_index(w as int, h as int, x as int, y as int);
                    if b * w + a == y * w + x {
                        lemma_index_injective(w as int, a, b, x as int, y as int);
                    }
                }
            }
            y += 1;
        }
        x += 1;
    }
}

/// The layout drawn as text: one column per whole unit of its width and
/// one line per whole unit of its height. Each cell shows the name of the
/// last leaf whose rectangle covers it, or a placeholder, padded to a common
/// width.
pub fn print_layout(layout: &Layout, names: &Vec<(Node, &'static str)>) -> (r: String)
    requires
        floor(layout.size.width) * floor(layout.size.height) <= usize::MAX,
    ensures
        ({
            let w = floor(layout.size.width);
            let h = floor(layout.size.height);
            r@ == grid_text(canvas(layout.table@, names@, w, h), w, widest(layout.table@, names@, w, h), h as int)
        }),
{
    let fw = floor_exec(layout.size.width);
    let fh = floor_exec(layout.size.height);
    if fw == 0 || fh == 0 {
        return String::new();
    }
    proof {
        assert(fw <= fw * fh && fh <= fw * fh) by (nonlinear_arith)
            requires
                fw >= 1,
                fh >= 1,
        ;
    }
    let w = fw as usize;
    let h = fh as usize;
    let mut p = GridPrinter::new(w, h);
    let ghost table = layout.table@;
    proof {
        assert(table.subrange(0, 0) =~= Seq::<(Node, Rect)>::empty());
        assert forall|a: int, b: int| 0 <= a < w && 0 <= b < h implies #[trigger] p.data@[b * w + a]
            == painted(table.subrange(0, 0), names@, a, b) by {
            lemma_index(w as int, h as int, a, b);
        }
    }
    let mut k: usize = 0;
    while k < layout.table.len()
        invariant
            table == layout.table@,
            k <= table.len(),
            p.width == w,
            p.height == h,
            p.data@.len() == w * h,
            w == fw,
            h == fh,
            p.max == widest(table.subrange(0, k as int), names@, w as nat, h as nat),
            forall|a: int, b: int|
                0 <= a < w && 0 <= b < h ==> #[trigger] p.data@[b * w + a] == painted(
                    table.subrange(0, k as int),
                    names@,
                    a,
                    b,
                ),
        decreases table.len() - k,
    {
        let node = layout.table[k].0;
        let rect = layout.table[k].1;
        let name = lookup(names, node);
        proof {
            assert(table.subrange(0, k + 1).drop_last() =~= table.subrange(0, k as int));
            assert(table.subrange(0, k + 1).last() == table[k as int]);
        }
        paint(&mut p, rect, name, Ghost(table.subrange(0, k as int)), Ghost(names@));
        k += 1;
    }
    proof {
        assert(table.subrange(0, table.len() as int) =~= table);
        let c = canvas(table, names@, w as nat, h as nat);
        assert forall|i: int| 0 <= i < p.data@.len() implies p.data@[i] == c[i] by {
            lemma_fundamental_div_mod(i, w as int);
            lemma_mod_pos_bound(i, w as int);
            let a = i % (w as int);
            let b = i / (w as int);
            assert(i == b * w + a) by (nonlinear_arith)
                requires
                    i == (w as int) * b + a,
            ;
            assert(0 <= b < h) by (nonlinear_arith)
                requires
                    i == b * w + a,
                    0 <= a < w,
                    0 <= i < w * h,
            ;
        }
        assert(p.data@ =~= c);
    }
    p.display()
}

} // verus!
