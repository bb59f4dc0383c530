//! The filter and its values can be shared between threads.

use badwords_core::{Match, Options, ProfanityFilter, Scratch};

fn assert_send_sync<T: Send + Sync>() {}

#[test]
fn public_types_are_send_and_sync() {
    assert_send_sync::<ProfanityFilter>();
    assert_send_sync::<Options>();
    assert_send_sync::<Match>();
    assert_send_sync::<Scratch>();
}
