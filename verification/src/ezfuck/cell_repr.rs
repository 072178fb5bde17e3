//! Renders the tape for the interactive session and the debugger: a
//! pointer marker row, an index row, a raw-value row and a
//! printable-ASCII projection row, one six-character column per cell.

use vstd::prelude::*;

verus! {

/// The character of one decimal digit.
pub open spec fn digit_char(d: nat) -> char {
    ((d + 48) as u8) as char
}

/// The decimal digits of `n`, most significant first.
pub open spec fn dec_digits(n: nat) -> Seq<char>
    decreases n,
{
    if n < 10 {
        seq![digit_char(n)]
    } else {
        dec_digits(n / 10).push(digit_char(n % 10))
    }
}

/// The decimal digits of `n`, left-padded with zeros to width three.
pub open spec fn pad3(n: nat) -> Seq<char> {
    if n < 10 {
        seq!['0', '0'] + dec_digits(n)
    } else if n < 100 {
        seq!['0'] + dec_digits(n)
    } else {
        dec_digits(n)
    }
}

/// The decimal digits of a number, as a string.
pub fn dec_string(n: usize) -> (s: String)
    ensures
        s@ == dec_digits(n as nat),
    decreases n,
{
    let d: u8 = ((n % 10) as u8) + 48;
    if n < 10 {
        let mut s = String::new();
        s.push(d as char);
        proof {
            assert(s@ =~= seq![digit_char(n as nat)]);
        }
        s
    } else {
        let mut s = dec_string(n / 10);
        s.push(d as char);
        s
    }
}

/// The decimal digits of a number, left-padded with zeros to width
/// three.
pub fn pad3_string(n: usize) -> (s: String)
    ensures
        s@ == pad3(n as nat),
{
    let mut s = String::new();
    if n < 10 {
        s.push('0');
        s.push('0');
    } else if n < 100 {
        s.push('0');
    }
    let digits = dec_string(n);
    s.append(digits.as_str());
    proof {
        if n < 10 {
            assert(s@ =~= seq!['0', '0'] + dec_digits(n as nat));
        } else if n < 100 {
            assert(s@ =~= seq!['0'] + dec_digits(n as nat));
        } else {
            assert(s@ =~= dec_digits(n as nat));
        }
    }
    s
}

/// The printable-ASCII projection of one cell: the character itself
/// for printable bytes, a space otherwise.
pub open spec fn ascii_cell(v: u8) -> char {
    if 32 <= v && v <= 126 {
        v as char
    } else {
        ' '
    }
}

/// The index of the last nonzero cell, or zero when every cell is
/// zero.
pub open spec fn last_nonzero(cells: Seq<u8>) -> int
    decreases cells.len(),
{
    if cells.len() == 0 {
        0
    } else if cells.last() != 0 {
        cells.len() - 1
    } else {
        last_nonzero(cells.drop_last())
    }
}

/// The pointer-marker row over the first `k` cells.
pub open spec fn ptr_cells(cell_ptr: nat, k: int) -> Seq<char>
    decreases k,
{
    if k <= 0 {
        Seq::empty()
    } else {
        ptr_cells(cell_ptr, k - 1) + (if k - 1 == cell_ptr {
            "   V  "@
        } else {
            "      "@
        })
    }
}

/// The index row over the first `k` cells.
pub open spec fn index_cells(k: int) -> Seq<char>
    decreases k,
{
    if k <= 0 {
        Seq::empty()
    } else {
        index_cells(k - 1) + "| "@ + pad3((k - 1) as nat) + " "@
    }
}

/// The raw-value row over the first `k` cells.
pub open spec fn raw_cells(cells: Seq<u8>, k: int) -> Seq<char>
    decreases k,
{
    if k <= 0 {
        Seq::empty()
    } else {
        raw_cells(cells, k - 1) + "| "@ + pad3(cells[k - 1] as nat) + " "@
    }
}

/// The printable-ASCII row over the first `k` cells.
pub open spec fn ascii_cells(cells: Seq<u8>, k: int) -> Seq<char>
    decreases k,
{
    if k <= 0 {
        Seq::empty()
    } else {
        ascii_cells(cells, k - 1) + "|  "@ + seq![ascii_cell(cells[k - 1])] + "  "@
    }
}

/// The whole rendering: cells up to the later of the last nonzero
/// cell and the pointer, in four rows.
pub open spec fn cells_repr_spec(cells: Seq<u8>, cell_ptr: nat) -> Seq<char> {
    if cells.len() > 0 {
        let last = if last_nonzero(cells) >= cell_ptr as int {
            last_nonzero(cells)
        } else {
            cell_ptr as int
        };
        let k = last + 1;
        "  "@ + ptr_cells(cell_ptr, k) + "\n"@ + "i "@ + index_cells(k) + "|\n"@ + "d "@
            + raw_cells(cells, k) + "|\n"@ + "a "@ + ascii_cells(cells, k) + "|\n"@
    } else {
        Seq::empty()
    }
}

/// Renders the tape: pointer position, indices, raw values and the
/// printable-ASCII projection, one column per shown cell.
pub fn produce_cells_repr(cells: &Vec<u8>, cell_ptr: usize) -> (r: String)
    requires
        cells@.len() == 0 || (cell_ptr as int) < cells@.len(),
    ensures
        r@ == cells_repr_spec(cells@, cell_ptr as nat),
{
    let len = cells.len();
    if len == 0 {
        return String::new();
    }
    let mut last_i: usize = 0;
    let mut j: usize = 0;
    while j < len
        invariant
            len == cells@.len(),
            j <= len,
            last_i as int == last_nonzero(cells@.take(j as int)),
            last_i <= len,
            j > 0 ==> last_i < j,
            j == 0 ==> last_i == 0,
        decreases len - j,
    {
        proof {
            assert(cells@.take(j + 1).drop_last() =~= cells@.take(j as int));
            assert(cells@.take(j + 1).last() == cells@[j as int]);
        }
        if cells[j] != 0 {
            last_i = j;
        }
        j += 1;
    }
    proof {
        assert(cells@.take(len as int) =~= cells@);
    }
    if cell_ptr > last_i {
        last_i = cell_ptr;
    }
    let ghost k_total = last_i as int + 1;

    let mut ptr_row = String::new();
    ptr_row.append("  ");
    let mut index_row = String::new();
    index_row.append("i ");
    let mut raw_row = String::new();
    raw_row.append("d ");
    let mut ascii_row = String::new();
    ascii_row.append("a ");

    let mut i: usize = 0;
    while i <= last_i
        invariant
            len == cells@.len(),
            last_i < len,
            i <= last_i + 1,
            ptr_row@ == "  "@ + ptr_cells(cell_ptr as nat, i as int),
            index_row@ == "i "@ + index_cells(i as int),
            raw_row@ == "d "@ + raw_cells(cells@, i as int),
            ascii_row@ == "a "@ + ascii_cells(cells@, i as int),
        decreases last_i + 1 - i,
    {
        let cell_value = cells[i];
        let cell_ascii: char = if cell_value >= 32 && cell_value <= 126 {
            cell_value as char
        } else {
            ' '
        };
        let ghost pre_ptr = ptr_row@;
        let ghost pre_index = index_row@;
        let ghost pre_raw = raw_row@;
        let ghost pre_ascii = ascii_row@;
        if i == cell_ptr {
            ptr_row.append("   V  ");
        } else {
            ptr_row.append("      ");
        }
        index_row.append("| ");
        let index_digits = pad3_string(i);
        index_row.append(index_digits.as_str());
        index_row.append(" ");
        raw_row.append("| ");
        let value_digits = pad3_string(cell_value as usize);
        raw_row.append(value_digits.as_str());
        raw_row.append(" ");
        ascii_row.append("|  ");
        ascii_row.push(cell_ascii);
        ascii_row.append("  ");
        proof {
            assert(ptr_row@ =~= "  "@ + ptr_cells(cell_ptr as nat, i + 1));
            assert(index_row@ =~= "i "@ + index_cells(i + 1));
            assert(raw_row@ =~= "d "@ + raw_cells(cells@, i + 1));
            assert(cell_ascii == ascii_cell(cells@[i as int]));
            assert(ascii_row@ =~= "a "@ + ascii_cells(cells@, i + 1));
        }
        i += 1;
    }

    let mut repr = ptr_row;
    repr.append("\n");
    repr.append(index_row.as_str());
    repr.append("|\n");
    repr.append(raw_row.as_str());
    repr.append("|\n");
    repr.append(ascii_row.as_str());
    repr.append("|\n");
    proof {
        assert(repr@ =~= cells_repr_spec(cells@, cell_ptr as nat));
    }
    repr
}

} // verus!
