use agilulf::client::{allocate_task, hash_key, plan_batch, reassemble_replies};
use agilulf::reply::Reply;
use agilulf::request::{Command, GetCommand, PutCommand};
use agilulf::Slice;

fn key8(bytes: &[u8]) -> Slice {
    let mut v = bytes.to_vec();
    while v.len() < 8 {
        v.push(0);
    }
    Slice(v)
}

fn val256(bytes: &[u8]) -> Slice {
    let mut v = bytes.to_vec();
    while v.len() < 256 {
        v.push(0);
    }
    Slice(v)
}

#[test]
fn routing_is_per_key() {
    let key = key8(b"key1");
    let put = Command::PUT(PutCommand {
        key: key.clone(),
        value: val256(b"v"),
    });
    let get = Command::GET(GetCommand { key: key.clone() });
    // all operations on one key land on the same connection
    assert_eq!(allocate_task(&put, 7), allocate_task(&get, 7));
    assert_eq!(hash_key(&key), hash_key(&key8(b"key1")));
    for knights in 1..9usize {
        assert!(allocate_task(&put, knights) < knights);
    }
}

#[test]
fn batch_replies_come_back_in_request_order() {
    let knights = 3usize;
    let mut commands: Vec<Command> = Vec::new();
    for i in 0..20usize {
        commands.push(Command::GET(GetCommand {
            key: key8(format!("key{}", i).as_bytes()),
        }));
    }
    let (buckets, routing) = plan_batch(&commands, knights);
    assert_eq!(routing.len(), commands.len());
    let total: usize = buckets.iter().map(|b| b.len()).sum();
    assert_eq!(total, commands.len());

    // each knight answers its queue in order with a tagged reply
    let mut replies: Vec<Vec<Reply>> = Vec::new();
    let mut positions: Vec<usize> = vec![0; knights];
    let mut tags: Vec<Vec<u8>> = Vec::new();
    for i in 0..commands.len() {
        let w = routing[i];
        tags.push(format!("w{}p{}", w, positions[w]).into_bytes());
        positions[w] += 1;
    }
    for w in 0..knights {
        let mut queue = Vec::new();
        for p in 0..buckets[w].len() {
            queue.push(Reply::ErrorReply(format!("w{}p{}", w, p).into_bytes()));
        }
        replies.push(queue);
    }

    let out = reassemble_replies(&routing, replies);
    assert_eq!(out.len(), commands.len());
    for i in 0..out.len() {
        match &out[i] {
            Reply::ErrorReply(tag) => assert_eq!(*tag, tags[i]),
            _ => unreachable!(),
        }
    }
}
