use capstan::audio_buffer::AudioBuffer;

#[test]
fn test_new_creates_buffer_with_correct_length() {
    let len = 128;
    let buffer: AudioBuffer<f32> = AudioBuffer::new(len);
    assert_eq!(buffer.len(), len);
}

#[test]
fn test_as_mut_slice_length_matches_capacity() {
    let len = 128;
    let mut buffer: AudioBuffer<f32> = AudioBuffer::new(len);
    assert_eq!(buffer.as_mut_slice().len(), len);
}

#[test]
fn test_zeroed_after_creation() {
    let len = 128;
    let buffer: AudioBuffer<f32> = AudioBuffer::new(len);
    assert!(buffer.as_slice().iter().all(|&x| x == 0.0));
}

#[test]
fn test_as_mut_slice_writes_visible_in_as_slice() {
    let len = 128;
    let mut buffer: AudioBuffer<f32> = AudioBuffer::new(len);
    buffer.as_mut_slice()[0] = 1.0;
    assert_eq!(buffer.as_slice()[0], 1.0);
}

#[test]
fn empty_buffer_has_no_samples() {
    let buffer: AudioBuffer<i16> = AudioBuffer::new(0);
    assert_eq!(buffer.len(), 0);
    assert!(buffer.as_slice().is_empty());
}
