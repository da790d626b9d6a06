//! The icons of the nodes.

use vstd::prelude::*;
use vstd::string::*;
use vstd::utf8::*;

use crate::node::TreeNode;
use crate::path::{bytes_equal, extension_of};
use crate::tree::NodeView;

verus! {

/// The extension of a path as text, where it has one that is text.
pub open spec fn extension_text(path: Seq<u8>) -> Option<Seq<char>> {
    match extension_of(path) {
        Some(bytes) => if valid_utf8(bytes) {
            Some(decode_utf8(bytes))
        } else {
            None
        },
        None => None,
    }
}

/// Whether an extension is the one that is asked for.
pub open spec fn has_extension(extension: Option<Seq<char>>, wanted: Seq<char>) -> bool {
    extension == Some(wanted)
}

/// The icon of a file, by its extension.
pub open spec fn file_icon(e: Option<Seq<char>>) -> Seq<char> {
    if has_extension(e, "rs"@) {
        "\u{f1617} "@
    } else if has_extension(e, "js"@) || has_extension(e, "jsx"@) {
        "\u{f031e} "@
    } else if has_extension(e, "go"@) {
        "\u{f07d3} "@
    } else if has_extension(e, "txt"@) {
        "\u{f0219} "@
    } else if has_extension(e, "toml"@) || has_extension(e, "md"@) || has_extension(e, "json"@)
        || has_extension(e, "yaml"@) || has_extension(e, "yml"@) || has_extension(e, "ts"@)
        || has_extension(e, "tsx"@) || has_extension(e, "py"@) || has_extension(e, "lua"@)
        || has_extension(e, "sh"@) || has_extension(e, "bash"@) || has_extension(e, "zsh"@)
        || has_extension(e, "lock"@) || has_extension(e, "gitignore"@) {
        " "@
    } else {
        "\u{f0214} "@
    }
}

/// The icon of a node.
pub open spec fn icon_of(n: NodeView) -> Seq<char> {
    if n.is_dir {
        if n.expanded {
            "\u{f0770} "@
        } else {
            "\u{f024b} "@
        }
    } else {
        file_icon(extension_text(n.path))
    }
}

/// Whether bytes are the encoding of a text.
fn is_encoded(bytes: &Vec<u8>, text: &str) -> (r: bool)
    ensures
        r == (valid_utf8(bytes@) && decode_utf8(bytes@) == text@),
{
    let encoded = text.as_bytes_vec();
    proof {
        encode_utf8_decode_utf8(text@);
        encode_utf8_valid_utf8(text@);
        if valid_utf8(bytes@) {
            decode_utf8_encode_utf8(bytes@);
        }
    }
    bytes_equal(bytes, &encoded)
}

impl TreeNode {
    /// The icon of this node: open and closed folders for directories, and for a file
    /// what its extension calls for.
    pub fn icon(&self) -> (icon: &'static str)
        ensures
            icon@ == icon_of(self@),
    {
        if self.is_dir {
            if self.expanded {
                "\u{f0770} "
            } else {
                "\u{f024b} "
            }
        } else {
            match self.path.extension() {
                None => "\u{f0214} ",
                Some(e) => {
                    if is_encoded(&e, "rs") {
                        "\u{f1617} "
                    } else if is_encoded(&e, "js") || is_encoded(&e, "jsx") {
                        "\u{f031e} "
                    } else if is_encoded(&e, "go") {
                        "\u{f07d3} "
                    } else if is_encoded(&e, "txt") {
                        "\u{f0219} "
                    } else if is_encoded(&e, "toml") || is_encoded(&e, "md") || is_encoded(
                        &e,
                        "json",
                    ) || is_encoded(&e, "yaml") || is_encoded(&e, "yml") || is_encoded(&e, "ts")
                        || is_encoded(&e, "tsx") || is_encoded(&e, "py") || is_encoded(&e, "lua")
                        || is_encoded(&e, "sh") || is_encoded(&e, "bash") || is_encoded(&e, "zsh")
                        || is_encoded(&e, "lock") || is_encoded(&e, "gitignore") {
                        " "
                    } else {
                        "\u{f0214} "
                    }
                },
            }
        }
    }
}

}
