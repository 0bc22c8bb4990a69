//! Layered key/value environment resolution for launching commands:
//! a line parser for `key=value` environment files, a map type holding
//! resolved variables, directional merging of layered sources, and
//! override application.

pub mod envmap;
pub mod parse;

pub use envmap::{map_of_pairs, distinct_keys, EnvMap, to_denvm, envm_of_lines, lines_to_denvm};
pub use envmap::{Dir, apply_dir, fold_dir, merge, merge_l, merge_r, merge_envs};
pub use envmap::{apply_opt, apply_pairs, set_froms, set_sets, from_pair, get_from};
pub use envmap::{env_views, resolved, resolve, binding_of};
pub use envmap::{
    lemma_merge_idempotent, lemma_direction, lemma_apply_binding, lemma_override_absolute,
    lemma_from_absolute,
};

pub use parse::{is_alpha, is_quote, eq_index, strip_quotes, parse_line};
pub use parse::{is_valid_ident, split_line};
pub use parse::{is_white, emit, toks, tokens_of, tokenize};
pub use parse::{lower_of, get_envf_path};
