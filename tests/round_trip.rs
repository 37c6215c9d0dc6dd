use network_disco::client::Client;
use network_disco::server::Server;

static TEST_ADDRESS: &str = "127.0.0.1";

fn send_all(server: &Server, client: &mut Client, channel: usize) {
    for i in 0..server.packets_per_channel() {
        assert_eq!(client.store_packet(server.packet(channel, i)), Ok(()));
    }
}

#[test]
fn test_client_receive_buffer() {
    let server_address = TEST_ADDRESS.to_owned() + ":9002";
    let mut client = Client::new(&server_address);

    let jack_buf_size = 1024;
    let _sample_rate = 44100;
    let _num_channels = 2;
    let network_mtu = 1500;
    let mut server =
        Server::new(jack_buf_size, _sample_rate, _num_channels, network_mtu, &server_address);

    let nines = f32::from_be_bytes([9, 9, 9, 9]);
    let jack_buffer: Vec<u8> =
        vec![nines; jack_buf_size].iter().flat_map(|s| s.to_ne_bytes()).collect();
    server.fill_buffer(&jack_buffer, 0);
    server.fill_buffer(&jack_buffer, 1);

    // Learn the session from the first datagram, as a receiver would.
    let (payload_size, num_chunks, sample_rate) =
        network_disco::client::packet_info(server.packet(0, 0)).unwrap();
    client.prime(payload_size, num_chunks, sample_rate);
    assert_eq!(client.get_sample_rate(), 0);
    assert_eq!(client.get_audio_buf_size(), 1024);

    send_all(&server, &mut client, 0);
    assert_eq!(client.get_next_row(0), &jack_buffer[..]);
}

#[test]
fn round_trip_rebuilds_each_block_in_its_row() {
    let mut server = Server::new(1024, 48000, 1, 1500, "127.0.0.1:9003");
    let mut client = Client::new("127.0.0.1:9003");
    client.prime(1366, 3, 0);

    let blocks: Vec<Vec<u8>> =
        (0..5u32).map(|b| (0..4096u32).map(|i| ((i * 7 + b * 31) % 251) as u8).collect()).collect();
    // Deliver the fragments of each block in reverse order.
    for block in &blocks {
        server.fill_buffer(block, 0);
        for i in (0..3).rev() {
            assert_eq!(client.store_packet(server.packet(0, i)), Ok(()));
        }
    }
    for block in &blocks {
        assert_eq!(client.get_next_row(0), &block[..]);
    }
}

#[test]
fn round_trip_drops_rows_past_the_ring() {
    // The sender wraps at 255, the receiver's ring holds 64 rows: the
    // datagrams of blocks 64 to 84 name rows it does not have.
    let mut server = Server::new(1024, 48000, 1, 1500, "127.0.0.1:9004");
    let mut client = Client::new("127.0.0.1:9004");
    client.prime(1366, 3, 0);
    let block = vec![1u8; 4096];
    for _ in 0..64 {
        server.fill_buffer(&block, 0);
        send_all(&server, &mut client, 0);
    }
    server.fill_buffer(&block, 0);
    assert_eq!(
        client.store_packet(server.packet(0, 0)),
        Err(network_disco::client::PacketError::MalformedHeader)
    );
}
