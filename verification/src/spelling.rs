//! How the bytes of a path spell its components.

use vstd::prelude::*;

use crate::path::{
    after_last, components_nonempty, components_of, components_shape, entry_path, extension_of,
    file_name_of, head, join_of, lemma_after_last, parent_drops_last, parent_of, piece_steps, tail,
    tail_start, trimmed, valid_name, Step, DOT, SEPARATOR,
};

verus! {

/// The component of a piece between two slashes: none for an empty one and for `.`.
pub open spec fn piece_component(piece: Seq<u8>) -> Seq<Step> {
    if piece.len() == 0 || piece == seq![46u8] {
        seq![]
    } else if piece == seq![46u8, 46u8] {
        seq![Step::Parent]
    } else {
        seq![Step::Normal(piece)]
    }
}

proof fn lemma_piece(piece: Seq<u8>)
    ensures
        piece_steps(piece, false) == piece_component(piece),
        piece != seq![46u8] ==> piece_steps(piece, true) == piece_component(piece),
        piece_steps(seq![46u8], true) == seq![Step::Current],
{
    let empty: Seq<u8> = seq![];
    if piece.len() == 0 {
        assert(piece =~= empty);
    }
    let (dot, dots) = (seq![46u8], seq![46u8, 46u8]);
    assert(dot.len() == 1 && dots.len() == 2);
    assert(seq![DOT] =~= dot);
    assert(seq![DOT, DOT] =~= dots);
}

/// A single piece spells its own component, and a `.` alone the current directory. The empty
/// path spells none.
pub proof fn components_of_piece(piece: Seq<u8>)
    requires
        !piece.contains(47u8),
    ensures
        components_of(piece) == if piece == seq![46u8] {
            seq![Step::Current]
        } else {
            piece_component(piece)
        },
{
    lemma_after_last(piece, SEPARATOR);
    if tail_start(piece) > 0 {
        assert(piece.contains(piece[tail_start(piece) - 1]));
    }
    lemma_piece(piece);
}

/// A slash at the beginning spells the root, and the piece behind it its component.
pub proof fn components_of_rooted(piece: Seq<u8>)
    requires
        !piece.contains(47u8),
    ensures
        components_of(seq![47u8] + piece) == seq![Step::Root] + piece_component(piece),
{
    lemma_parts(seq![], piece);
    lemma_piece(piece);
}

proof fn lemma_parts(front: Seq<u8>, piece: Seq<u8>)
    requires
        !piece.contains(47u8),
    ensures
        tail_start(front.push(47u8) + piece) == front.len() + 1,
        tail(front.push(47u8) + piece) == piece,
        head(front.push(47u8) + piece) == front,
        front.len() == 0 ==> front.push(47u8) + piece == seq![47u8] + piece,
{
    let text = front.push(47u8) + piece;
    lemma_after_last(text, SEPARATOR);
    let k = tail_start(text);
    assert(text[front.len() as int] == 47u8);
    if k > front.len() + 1 {
        assert(text[k - 1] == piece[k - 1 - front.len() - 1]);
        assert(piece.contains(piece[k - 1 - front.len() - 1]));
    }
    assert(tail(text) =~= piece);
    assert(head(text) =~= front);
    if front.len() == 0 {
        assert(front.push(47u8) + piece =~= seq![47u8] + piece);
    }
}

/// A further piece, behind a slash, adds its component to those of what stands before.
pub proof fn components_of_longer(front: Seq<u8>, piece: Seq<u8>)
    requires
        front.len() > 0,
        !piece.contains(47u8),
    ensures
        components_of(front.push(47u8) + piece) == components_of(front) + piece_component(piece),
{
    lemma_parts(front, piece);
    lemma_piece(piece);
}

/// A byte string can name an entry if and only if, as a path, it spells that name and
/// nothing else.
pub proof fn valid_names_spell_themselves(name: Seq<u8>)
    ensures
        valid_name(name) <==> components_of(name) == seq![Step::Normal(name)],
        valid_name(name) <==> name.len() > 0 && !name.contains(47u8) && name != seq![46u8] && name
            != seq![46u8, 46u8],
{
    components_shape(name);
    let steps = components_of(name);
    assert(seq![DOT] =~= seq![46u8]);
    assert(seq![DOT, DOT] =~= seq![46u8, 46u8]);
    if steps == seq![Step::Normal(name)] {
        assert(steps[0] == Step::Normal(name));
    }
    if valid_name(name) {
        components_of_piece(name);
    }
}

/// Joining puts the two byte strings one after the other, with one slash between unless the
/// first ends in one; nothing goes before a path that begins with a slash, or after nothing.
pub proof fn joined_bytes(base: Seq<u8>, relative: Seq<u8>)
    ensures
        base.len() == 0 ==> join_of(base, relative) == relative,
        relative.len() > 0 && relative[0] == 47u8 ==> join_of(base, relative) == relative,
        base.len() > 0 && !(relative.len() > 0 && relative[0] == 47u8) && base[base.len() - 1]
            == 47u8 ==> join_of(base, relative) == base + relative,
        base.len() > 0 && !(relative.len() > 0 && relative[0] == 47u8) && base[base.len() - 1]
            != 47u8 ==> join_of(base, relative) == base.push(47u8) + relative,
{
}

proof fn lemma_trimmed_prefix(text: Seq<u8>)
    ensures
        trimmed(text).len() <= text.len(),
        trimmed(text) == text.take(trimmed(text).len() as int),
        trimmed(text).len() > 1 ==> trimmed(text)[trimmed(text).len() - 1] != 47u8,
    decreases text.len(),
{
    lemma_after_last(text, SEPARATOR);
    if tail_start(text) == 0 || piece_steps(tail(text), false).len() > 0 {
        assert(text.take(text.len() as int) =~= text);
        if text.len() > 1 && text[text.len() - 1] == 47u8 {
            assert(tail_start(text) == text.len());
            assert(tail(text) =~= seq![]);
        }
    } else if tail_start(text) == 1 {
    } else {
        lemma_trimmed_prefix(head(text));
        assert(trimmed(text) =~= text.take(trimmed(text).len() as int));
    }
}

/// The parent of a path is where the path begins, and ends in no slash but the root's.
pub proof fn parent_is_prefix(text: Seq<u8>)
    ensures
        parent_of(text) matches Some(p) ==> p.len() <= text.len() && p == text.take(
            p.len() as int,
        ) && (p.len() > 1 ==> p[p.len() - 1] != 47u8),
    decreases text.len(),
{
    lemma_after_last(text, SEPARATOR);
    if text.len() == 0 {
    } else if tail_start(text) == 0 {
        assert(text.take(0) =~= seq![]);
    } else if piece_steps(tail(text), false).len() > 0 {
        if tail_start(text) > 1 {
            lemma_trimmed_prefix(head(text));
            let p = trimmed(head(text));
            assert(p =~= text.take(p.len() as int));
        }
    } else if tail_start(text) > 1 {
        parent_is_prefix(head(text));
        if parent_of(head(text)) is Some {
            let p = parent_of(head(text)).unwrap();
            assert(p =~= text.take(p.len() as int));
        }
    }
}

/// The root has no parent, and nothing else that spells a component lacks one.
pub proof fn parent_of_root(text: Seq<u8>)
    ensures
        parent_of(text) is None <==> components_of(text).len() == 0 || components_of(text)
            == seq![Step::Root],
    decreases text.len(),
{
    lemma_after_last(text, SEPARATOR);
    components_nonempty(text);
    parent_drops_last(text);
    if text.len() > 0 && tail_start(text) > 0 {
        let piece = piece_steps(tail(text), false);
        if tail_start(text) == 1 {
            if piece.len() > 0 {
                assert(components_of(text).len() == 2);
            }
        } else {
            components_nonempty(head(text));
            if piece.len() > 0 {
                assert(components_of(text).len() >= 2);
            } else {
                assert(components_of(text) =~= components_of(head(text)));
                parent_of_root(head(text));
            }
        }
    } else if text.len() > 0 {
        let steps = piece_steps(text, true);
        assert(steps.len() == 1 && !(steps[0] is Root));
    }
}

/// The file name of a path is its last component, if that is a name.
pub proof fn file_name_is_last(text: Seq<u8>)
    ensures
        file_name_of(text) matches Some(name) ==> components_of(text).len() > 0
            && components_of(text)[components_of(text).len() - 1] == Step::Normal(name),
        file_name_of(text) is None ==> components_of(text).len() == 0 || !(components_of(
            text,
        )[components_of(text).len() - 1] is Normal),
{
}

proof fn lemma_after_dot(stem: Seq<u8>, ext: Seq<u8>)
    requires
        !ext.contains(46u8),
    ensures
        after_last(stem.push(46u8) + ext, DOT) == stem.len() + 1,
{
    let name = stem.push(46u8) + ext;
    lemma_after_last(name, DOT);
    let k = after_last(name, DOT);
    assert(name[stem.len() as int] == 46u8);
    if k > stem.len() + 1 {
        assert(name[k - 1] == ext[k - 1 - stem.len() - 1]);
        assert(ext.contains(ext[k - 1 - stem.len() - 1]));
    }
}

/// The extension of an entry is what stands behind the last dot of its name, unless that dot
/// leads the name; a name without a dot has none.
pub proof fn extension_of_entry(dir: Seq<u8>, name: Seq<u8>, stem: Seq<u8>, ext: Seq<u8>)
    requires
        valid_name(name),
        !ext.contains(46u8),
    ensures
        name == stem.push(46u8) + ext && stem.len() > 0 ==> extension_of(join_of(dir, name))
            == Some(ext),
        name == stem.push(46u8) + ext && stem.len() == 0 ==> extension_of(join_of(dir, name)) is None,
        !name.contains(46u8) ==> extension_of(join_of(dir, name)) is None,
{
    entry_path(dir, name);
    lemma_after_last(name, DOT);
    if name == stem.push(46u8) + ext {
        lemma_after_dot(stem, ext);
        assert(name.skip(stem.len() as int + 1) =~= ext);
    }
    if !name.contains(46u8) {
        let k = after_last(name, DOT);
        if k > 0 {
            assert(name.contains(name[k - 1]));
        }
    }
}

}
