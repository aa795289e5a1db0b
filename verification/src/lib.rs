mod generate;
mod laws;
mod model;
mod table;
mod tokenizer;

pub use generate::ctx_limit;
pub use generate::is_generation;
pub use generate::longest_match;
pub use generate::longest_match_from;
pub use generate::step_ok;
pub use laws::lemma_generation_empty_model;
pub use laws::lemma_generation_length;
pub use laws::lemma_generation_target_met;
pub use laws::lemma_longest_match_in_dom;
pub use laws::lemma_longest_match_prefers_longer;
pub use laws::lemma_train_monotone;
pub use model::Brain;
pub use model::FreqTable;
pub use model::bump_count;
pub use model::bumped;
pub use model::count_of;
pub use model::hist_at;
pub use model::inner_of;
pub use model::record_all;
pub use model::spec_train;
pub use model::spec_train_upto;
pub use table::MAX_CONTEXT_SIZE;
pub use tokenizer::concat_all;
pub use tokenizer::is_ascii_word_char;
pub use tokenizer::is_word_start;
pub use tokenizer::lemma_tokenize_round_trip;
pub use tokenizer::spec_tokenize;
