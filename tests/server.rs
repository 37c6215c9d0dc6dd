use network_disco::protocol::FragmentPlan;
use network_disco::server::Server;

static TEST_ADDRESS: &str = "127.0.0.1";

fn block_bytes(samples: &[f32]) -> Vec<u8> {
    samples.iter().flat_map(|s| s.to_ne_bytes()).collect()
}

#[test]
fn test_server_new() {
    let jack_buf_size = 1024;
    let _sample_rate = 44100;
    let _num_channels = 2;
    let network_mtu = 1500;
    let send_address = TEST_ADDRESS.to_owned() + ":9001";
    let server = Server::new(jack_buf_size, _sample_rate, _num_channels, network_mtu, &send_address);

    assert_eq!(server.get_payload_size(), 1370);
    assert_eq!(server.read_buffer(0).len(), 4108);
    assert_eq!(server.get_key(), 255);
}

#[test]
fn test_server_fill_buffer() {
    let jack_buf_size = 1024;
    let _sample_rate = 44100;
    let _num_channels = 2;
    let network_mtu = 1500;
    let send_address = TEST_ADDRESS.to_owned() + ":9001";
    let mut server =
        Server::new(jack_buf_size, _sample_rate, _num_channels, network_mtu, &send_address);

    let nines = f32::from_be_bytes([9, 9, 9, 9]);
    let jack_buffer = block_bytes(&vec![nines; jack_buf_size]);
    server.fill_buffer(&jack_buffer, 0);
    server.fill_buffer(&jack_buffer, 1);

    // Channel 0
    assert_eq!(0, server.read_buffer(0)[0]); // 1st header
    assert_eq!(0, server.read_buffer(0)[1]);
    assert_eq!(0, server.read_buffer(0)[2]);
    assert_eq!(3, server.read_buffer(0)[3]);
    assert_eq!(9, server.read_buffer(0)[4]); // 1st payload
    assert_eq!(9, server.read_buffer(0)[1369]);
    assert_eq!(0, server.read_buffer(0)[1370]); // 2nd header
    assert_eq!(1, server.read_buffer(0)[1371]);
    assert_eq!(0, server.read_buffer(0)[1372]);
    assert_eq!(3, server.read_buffer(0)[1373]);
    assert_eq!(9, server.read_buffer(0)[1374]); // 2nd payload
    assert_eq!(9, server.read_buffer(0)[2739]);
    assert_eq!(0, server.read_buffer(0)[2740]); // 3rd header
    assert_eq!(2, server.read_buffer(0)[2741]);
    assert_eq!(0, server.read_buffer(0)[2742]);
    assert_eq!(3, server.read_buffer(0)[2743]);
    assert_eq!(9, server.read_buffer(0)[2744]); // 3rd payload
    assert_eq!(9, server.read_buffer(0)[4107]);

    // Channel 1
    assert_eq!(1, server.read_buffer(1)[0]); // 1st header
    assert_eq!(0, server.read_buffer(1)[1]);
    assert_eq!(0, server.read_buffer(1)[2]);
    assert_eq!(3, server.read_buffer(1)[3]);
    assert_eq!(9, server.read_buffer(1)[4]); // 1st payload
    assert_eq!(9, server.read_buffer(1)[1369]);
    assert_eq!(1, server.read_buffer(1)[1370]); // 2nd header
    assert_eq!(1, server.read_buffer(1)[1371]);
    assert_eq!(0, server.read_buffer(1)[1372]);
    assert_eq!(3, server.read_buffer(1)[1373]);
    assert_eq!(9, server.read_buffer(1)[1374]); // 2nd payload
    assert_eq!(9, server.read_buffer(1)[2739]);
    assert_eq!(1, server.read_buffer(1)[2740]); // 3rd header
    assert_eq!(2, server.read_buffer(1)[2741]);
    assert_eq!(0, server.read_buffer(1)[2742]);
    assert_eq!(3, server.read_buffer(1)[2743]);
    assert_eq!(9, server.read_buffer(1)[2744]); // 3rd payload
    assert_eq!(9, server.read_buffer(1)[4107]);
}

#[test]
fn test_server_send_packets() {
    let jack_buf_size = 1024;
    let _sample_rate = 44100;
    let _num_channels = 2;
    let network_mtu = 1500;
    let send_address = TEST_ADDRESS.to_owned() + ":9001";
    let mut server =
        Server::new(jack_buf_size, _sample_rate, _num_channels, network_mtu, &send_address);

    let one = f32::from_be_bytes([1, 1, 1, 1]);
    let jack_buffer = block_bytes(&vec![one; jack_buf_size]);
    server.fill_buffer(&jack_buffer, 0);
    server.fill_buffer(&jack_buffer, 1);

    // The datagrams each channel is sent in.
    assert_eq!(server.num_channels(), 2);
    assert_eq!(server.packets_per_channel(), 3);
    for channel in 0..2 {
        let lens: Vec<usize> = (0..3).map(|i| server.packet(channel, i).len()).collect();
        assert_eq!(lens, vec![1370, 1370, 1368]);
        for i in 0..3 {
            let packet = server.packet(channel, i);
            assert_eq!(&packet[..4], &[channel as u8, i as u8, 0, 3]);
            assert!(packet[4..].iter().all(|&b| b == 1));
        }
    }
    assert_eq!(server.get_send_address(), "127.0.0.1:9001");
    assert_eq!(server.get_sample_rate(), 44100);
}

#[test]
fn plan_for_one_kilosample_block() {
    let plan = FragmentPlan::new(1024, 1500).unwrap();
    assert_eq!(plan.block_bytes, 4096);
    assert_eq!(plan.chunks_per_block, 3);
    assert_eq!(plan.payload_capacity, 1370);
    assert_eq!(plan.raw_buffer_size, 4108);
}

#[test]
fn plan_rejects_what_does_not_fit() {
    // No room past the reserved overhead.
    assert_eq!(FragmentPlan::new(1024, 100), None);
    assert_eq!(FragmentPlan::new(1024, 50), None);
    // Empty blocks.
    assert_eq!(FragmentPlan::new(0, 1500), None);
    // One byte of room per datagram: 4096 chunks do not fit a header byte.
    assert_eq!(FragmentPlan::new(1024, 101), None);
    // Exactly 255 chunks still fit.
    let plan = FragmentPlan::new(255, 104).unwrap();
    assert_eq!(plan.chunks_per_block, 255);
    assert_eq!(FragmentPlan::new(256, 104), None);
    // The block size in bytes must be addressable.
    assert_eq!(FragmentPlan::new(usize::MAX / 2, 1500), None);
}

#[test]
fn plan_covers_block_and_headers() {
    for samples in [1usize, 2, 3, 7, 64, 100, 333, 1024, 4096, 8000] {
        for mtu in [101usize, 102, 150, 576, 1400, 1500, 9000] {
            let expected_chunks = (4 * samples + (mtu - 100) - 1) / (mtu - 100);
            match FragmentPlan::new(samples, mtu) {
                Some(plan) => {
                    assert_eq!(plan.chunks_per_block, expected_chunks);
                    let n = plan.chunks_per_block;
                    assert!(n * plan.payload_capacity >= 4 * samples + 4 * n);
                    assert_eq!(plan.raw_buffer_size, 4 * n + 4 * samples);
                }
                None => assert!(expected_chunks > 255),
            }
        }
    }
}

#[test]
fn uneven_block_leaves_short_last_datagram() {
    // 10 samples = 40 bytes, 17 bytes of room: 3 chunks of at most 14 bytes.
    let mut server = Server::new(10, 48000, 1, 117, "127.0.0.1:9001");
    assert_eq!(server.packets_per_channel(), 3);
    assert_eq!(server.get_payload_size(), 18);
    let block: Vec<u8> = (0..40).collect();
    server.fill_buffer(&block, 0);
    assert_eq!(server.packet(0, 0), &[0, 0, 0, 3, 0, 1, 2, 3, 4, 5, 6, 7, 8, 9, 10, 11, 12, 13][..]);
    assert_eq!(server.packet(0, 1)[..5], [0, 1, 0, 3, 14]);
    assert_eq!(server.packet(0, 2), &[0, 2, 0, 3, 28, 29, 30, 31, 32, 33, 34, 35, 36, 37, 38, 39][..]);
}

#[test]
fn sequence_codes_wrap_at_key() {
    let mut server = Server::new(1024, 44100, 1, 1500, "127.0.0.1:9001");
    let block = vec![0u8; 4096];
    let key = server.get_key();
    assert_eq!(key, 255);
    let mut expected = 0usize;
    // 85 blocks of 3 fragments use each code below the key once.
    for _ in 0..85 {
        server.fill_buffer(&block, 0);
        for i in 0..3 {
            assert_eq!(server.packet(0, i)[1] as usize, expected);
            expected += 1;
        }
    }
    assert_eq!(expected, key);
    server.fill_buffer(&block, 0);
    assert_eq!(server.packet(0, 0)[1], 0);
    assert_eq!(server.packet(0, 1)[1], 1);
    assert_eq!(server.packet(0, 2)[1], 2);
}

#[test]
fn channel_counters_are_independent() {
    let mut server = Server::new(1024, 44100, 2, 1500, "127.0.0.1:9001");
    let block = vec![5u8; 4096];
    server.fill_buffer(&block, 0);
    server.fill_buffer(&block, 0);
    server.fill_buffer(&block, 1);
    assert_eq!(server.packet(0, 0)[1], 3);
    assert_eq!(server.packet(1, 0)[1], 0);
    assert_eq!(server.packet(1, 2)[1], 2);
}
