use colla::richtext::{char_prefix_bytes, char_prefix_metrics, RichTextChunk, TextMetrics};
use colla::ValueError;

#[test]
fn text_metrics_reject_all_length_overflows() {
    assert_eq!(
        TextMetrics::new(isize::MAX as usize, 1, 1).checked_add(TextMetrics::new(1, 1, 1)),
        Err(ValueError::LengthOverflow)
    );
    assert_eq!(
        TextMetrics::new(1, usize::MAX, 1).checked_add(TextMetrics::new(1, 1, 1)),
        Err(ValueError::LengthOverflow)
    );
    assert_eq!(
        TextMetrics::new(1, 1, usize::MAX).checked_add(TextMetrics::new(1, 1, 1)),
        Err(ValueError::LengthOverflow)
    );
}

#[test]
fn text_metrics_add_componentwise() {
    let sum = TextMetrics::new(3, 2, 2).checked_add(TextMetrics::new(4, 1, 2)).unwrap();
    assert_eq!((sum.byte_len(), sum.scalar_len(), sum.utf16_len()), (7, 3, 4));
}

#[test]
fn chunks_cache_scalar_and_utf16_lengths() {
    let chunk = RichTextChunk::new("a🙂é");
    assert_eq!(chunk.as_str(), "a🙂é");
    assert_eq!(chunk.len(), 3);
    assert_eq!(chunk.utf16_len(), 4);
    assert!(!chunk.is_empty());
    assert!(RichTextChunk::new("").is_empty());
    let m = chunk.metrics();
    assert_eq!((m.byte_len(), m.scalar_len(), m.utf16_len()), (7, 3, 4));
}

#[test]
fn chunks_concatenate_with_summed_lengths() {
    let joined = RichTextChunk::new("ab").try_concat(&RichTextChunk::new("🙂")).unwrap();
    assert_eq!(joined.as_str(), "ab🙂");
    assert_eq!(joined.len(), 3);
    assert_eq!(joined.utf16_len(), 4);
}

#[test]
fn prefix_metrics_count_whole_scalars() {
    let m = char_prefix_metrics("a🙂b", 2);
    assert_eq!((m.byte_len(), m.scalar_len(), m.utf16_len()), (5, 2, 3));
    let m = char_prefix_metrics("ab", 9);
    assert_eq!((m.byte_len(), m.scalar_len(), m.utf16_len()), (2, 2, 2));
    assert_eq!(char_prefix_bytes("é!", 1), 2);
    assert_eq!(char_prefix_bytes("é!", 0), 0);
}
