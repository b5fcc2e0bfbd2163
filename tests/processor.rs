use capstan::processor::{fill, Processor, Silence};

#[test]
fn test_processor_can_be_called_with_slice() {
    let buffer_len = 128;
    let mut buffer = vec![0.0f32; buffer_len];
    for sample in buffer.iter_mut() {
        *sample = 1.0;
    }

    let mut silence_processor = Silence;

    silence_processor.process(&[], &[], buffer.as_mut_slice());
    assert!(buffer.iter().all(|&x| x == 0.0));
}

#[test]
fn test_processor_respects_output_length() {
    let buffer_len = 128;
    let mut buffer = vec![0.0f32; buffer_len];
    let mut silence_processor = Silence;
    silence_processor.process(&[], &[], buffer.as_mut_slice());
    assert_eq!(buffer.len(), buffer_len);
}

#[test]
fn fill_sets_every_sample() {
    let mut buffer = vec![1.5f32; 5];
    fill(&mut buffer[1..4], -2.0);
    assert_eq!(buffer, vec![1.5, -2.0, -2.0, -2.0, 1.5]);
}
